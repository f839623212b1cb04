//! Decoder. Mirror of [`crate::encode`]: change both together.
//!
//! Everything read from the bitstream is untrusted until validated.

use crate::alphabet;
use crate::bitio::BitReader;
use crate::block::{BlockGrid, BlockRect};
use crate::channels::{
    ascending_below, lemma_coded_list, target_of, ChannelMode, ChannelPlan, CodedIndices,
};
use crate::context::{ContextModel, Plane};
use crate::bits::{bits_of, byte_bits, lemma_bits_of_len, pad_len, padded, zeros};
use crate::file::{
    assembled, body_bits, file_holds, kind_bits, lemma_kind_bits_len, lemma_kind_bits_prefix,
    lemma_same_header_decodes_alike, ranks_valid, restored, restored_ranks, unit_count,
};
use crate::encode::{
    block_bits, block_param, block_values, grid_bits, heads_bits, index_of, payload_bits,
    payloads_bits, plane_ok, rebase, row_bits, row_values, rows_values, sample_index, slot_base,
    slot_residuals, slot_samples, value_bits,
};
use crate::stream::{
    bits_at, lemma_bits_at_prefix, lemma_bits_at_split, lemma_block_channel, lemma_field_reads,
    lemma_grid_prefix, lemma_heads_prefix, lemma_index_inverse, lemma_next_value,
    lemma_payload_prefix, lemma_payload_push, lemma_payloads_prefix, lemma_rebase_prefix,
    lemma_row_prefix,
};
use vstd::arithmetic::div_mod::*;
use vstd::arithmetic::power2::*;
use crate::error::BrpError;
use crate::header::{
    fixed_error, le32_at, parse_outcome, same_header, Header, BLOCK_CODER_CONTEXT, BLOCK_CODER_FIXED, BLOCK_CODER_RICE,
    WIDTH_CODE_BITS, ZERO_BLOCK_BITS,
};
use crate::image::{len_fits, required_len, RawImage};
use crate::predict::{self, col_of, lemma_index, row_of, FilterLayout, FILTER_KINDS, FILTER_KIND_BITS};
use crate::rice;
use vstd::prelude::*;

verus! {

/// Default ceiling on a decoded image, in bytes of samples.
///
/// A header declares its dimensions in 27 bytes, so a tiny file can claim an enormous image, and
/// the claim can even be legitimate: an image of constant channels really is just a header. A
/// decoder reading untrusted files needs an explicit limit instead. 256 MiB covers an 8192x8192
/// RGBA image.
pub const DEFAULT_MAX_IMAGE_BYTES: usize = 268435456;

#[derive(Debug, Clone, PartialEq, Eq)]
pub struct DecodeOptions {
    /// Refuse to allocate a pixel buffer larger than this.
    pub max_image_bytes: usize,
}

impl Default for DecodeOptions {
    fn default() -> (o: Self)
        ensures
            o.max_image_bytes == DEFAULT_MAX_IMAGE_BYTES,
    {
        DecodeOptions { max_image_bytes: DEFAULT_MAX_IMAGE_BYTES }
    }
}

/// Decodes a bitstream, with [`DEFAULT_MAX_IMAGE_BYTES`] as the size limit.
///
/// Returns an error for any malformed input; never panics.
pub fn decode(bytes: &[u8]) -> (r: Result<RawImage, BrpError>)
    requires
        bytes@.len() <= usize::MAX / 8,
    ensures
        match fixed_error(bytes@) {
            Some(e) => r == Err::<RawImage, BrpError>(e),
            None => r matches Ok(img) ==> img.wf() && img.spec_width() == le32_at(bytes@, 6)
                && img.spec_height() == le32_at(bytes@, 10) && img.spec_channels() == bytes@[14],
        },
        forall|e: BrpError| #[trigger] parse_outcome(bytes@, Err::<(Header, usize), BrpError>(e))
            ==> r == Err::<RawImage, BrpError>(e),
        forall|hn: (Header, usize)|
            #[trigger] parse_outcome(bytes@, Ok::<(Header, usize), BrpError>(hn)) && sample_count(
                bytes@,
            ) > DEFAULT_MAX_IMAGE_BYTES ==> r == Err::<RawImage, BrpError>(
                BrpError::ImageTooLarge {
                    need: sample_count(bytes@) as usize,
                    limit: DEFAULT_MAX_IMAGE_BYTES,
                },
            ),
        forall|h: Header, kinds: Seq<u8>, d: Seq<u8>|
            #[trigger] file_holds(bytes@, h, kinds, d) && h.width * h.height * h.channels
                <= DEFAULT_MAX_IMAGE_BYTES ==> decodes_to(r, h, kinds, d),
        forall|h: Header, kinds: Seq<u8>, d: Seq<u8>, m: int|
            0 <= m <= bytes@.len() && #[trigger] file_holds(bytes@.subrange(0, m), h, kinds, d)
                && h.width * h.height * h.channels <= DEFAULT_MAX_IMAGE_BYTES ==> decodes_to(r, h, kinds, d),
{
    decode_with(bytes, &DecodeOptions::default())
}

/// How many samples the header stored in `b` declares: width times height times channels.
pub open spec fn sample_count(b: Seq<u8>) -> int {
    le32_at(b, 6) * le32_at(b, 10) * b[14]
}

/// What decoding returns for a file that holds header `h`, predictor codes `kinds` and residual
/// plane `d`: the restored image when every recovered rank names a value of its channel's map,
/// the rank error when one does not; or a refusal to allocate the samples.
pub open spec fn decodes_to(r: Result<RawImage, BrpError>, h: Header, kinds: Seq<u8>, d: Seq<u8>) -> bool {
    let valid = ranks_valid(h, restored_ranks(h, kinds, d));
    match r {
        Ok(img) => {
            &&& valid
            &&& img.wf()
            &&& img.spec_width() == h.width
            &&& img.spec_height() == h.height
            &&& img.spec_channels() == h.channels
            &&& img.spec_data() == restored(h, kinds, d)
        },
        Err(e) => match e {
            BrpError::AlphabetRankOutOfRange { .. } => !valid,
            BrpError::AllocationFailed { bytes } => bytes == h.width * h.height * h.channels,
            BrpError::ImageTooLarge { .. } => h.width * h.height * h.channels > u64::MAX / 64,
            _ => false,
        },
    }
}

/// Decodes a bitstream with an explicit resource limit.
///
/// A file as the encoder writes it decodes to the image it was written from (see
/// [`crate::file::lemma_decode_inverts_encode`]) whenever its samples fit the limit.
pub fn decode_with(bytes: &[u8], opts: &DecodeOptions) -> (r: Result<RawImage, BrpError>)
    requires
        bytes@.len() <= usize::MAX / 8,
    ensures
        match fixed_error(bytes@) {
            Some(e) => r == Err::<RawImage, BrpError>(e),
            None => r matches Ok(img) ==> img.wf() && img.spec_width() == le32_at(bytes@, 6)
                && img.spec_height() == le32_at(bytes@, 10) && img.spec_channels() == bytes@[14]
                && le32_at(bytes@, 6) * le32_at(bytes@, 10) * bytes@[14] <= opts.max_image_bytes,
        },
        forall|e: BrpError| #[trigger] parse_outcome(bytes@, Err::<(Header, usize), BrpError>(e))
            ==> r == Err::<RawImage, BrpError>(e),
        forall|hn: (Header, usize)|
            #[trigger] parse_outcome(bytes@, Ok::<(Header, usize), BrpError>(hn)) && sample_count(
                bytes@,
            ) > opts.max_image_bytes ==> r == Err::<RawImage, BrpError>(
                BrpError::ImageTooLarge {
                    need: sample_count(bytes@) as usize,
                    limit: opts.max_image_bytes,
                },
            ),
        forall|h: Header, kinds: Seq<u8>, d: Seq<u8>|
            #[trigger] file_holds(bytes@, h, kinds, d) && h.width * h.height * h.channels
                <= opts.max_image_bytes ==> decodes_to(r, h, kinds, d),
        forall|h: Header, kinds: Seq<u8>, d: Seq<u8>, m: int|
            0 <= m <= bytes@.len() && #[trigger] file_holds(bytes@.subrange(0, m), h, kinds, d)
                && h.width * h.height * h.channels <= opts.max_image_bytes ==> decodes_to(r, h, kinds, d),
{
    let ghost held = exists|h: Header, k: Seq<u8>, d: Seq<u8>| file_leads(bytes@, h, k, d);
    let ghost (h0, k0, d0) = choose|h: Header, k: Seq<u8>, d: Seq<u8>| file_leads(bytes@, h, k, d);
    let ghost n0 = h0.spec_bytes().len() as int;
    let ghost rest = bytes@.subrange(n0, bytes@.len() as int);
    let ghost size0 = h0.width * h0.height * h0.channels;
    proof {
        // Whole bytes after a file are never read.
        assert forall|h: Header, k: Seq<u8>, d: Seq<u8>, m: int|
            0 <= m <= bytes@.len() && #[trigger] file_holds(bytes@.subrange(0, m), h, k, d) implies file_leads(
            bytes@,
            h,
            k,
            d,
        ) by {
            lemma_file_leads(bytes@, m, h, k, d);
        }
        assert forall|h: Header, k: Seq<u8>, d: Seq<u8>| #[trigger] file_holds(bytes@, h, k, d) implies file_leads(
            bytes@,
            h,
            k,
            d,
        ) by {
            assert(bytes@.subrange(0, bytes@.len() as int) =~= bytes@);
            lemma_file_leads(bytes@, bytes@.len() as int, h, k, d);
        }
        // Every reading of the file is the chosen one's.
        assert forall|h: Header, k: Seq<u8>, d: Seq<u8>| #[trigger] file_leads(bytes@, h, k, d) implies {
            &&& same_header(h0, h)
            &&& restored_ranks(h, k, d) == restored_ranks(h0, k0, d0)
            &&& ranks_valid(h, restored_ranks(h, k, d)) == ranks_valid(h0, restored_ranks(h0, k0, d0))
            &&& restored(h, k, d) == restored(h0, k0, d0)
        } by {
            lemma_file_unique(bytes@, h0, k0, d0, h, k, d);
        }
        if held {
            assert(bytes@ =~= h0.spec_bytes() + rest);
        }
    }
    let parsed = Header::parse(bytes);
    proof {
        if held {
            crate::header::lemma_parse_recovers(h0, rest, parsed);
        }
    }
    proof {
        assert forall|e: BrpError| #[trigger] parse_outcome(bytes@, Err::<(Header, usize), BrpError>(e))
            implies parsed == Err::<(Header, usize), BrpError>(e) by {
            crate::header::lemma_parse_outcome_unique(bytes@, parsed, Err(e));
        }
        assert forall|hn: (Header, usize)| #[trigger] parse_outcome(bytes@, Ok::<(Header, usize), BrpError>(hn))
            implies parsed is Ok by {
            crate::header::lemma_parse_outcome_unique(bytes@, parsed, Ok(hn));
        }
    }
    let (header, header_len) = match parsed {
        Ok(h) => h,
        Err(e) => {
            return Err(e);
        },
    };
    proof {
        lemma_coded_list(header.plan.spec_modes(), header.channels as nat);
        if held {
            lemma_same_header_decodes_alike(header, h0, k0, d0);
        }
    }
    let stride = header.channels as usize;
    let coded = header.coded_indices();
    let len = match required_len(header.width, header.height, header.channels) {
        Ok(n) => n,
        Err(e) => {
            return Err(e);
        },
    };
    if len > opts.max_image_bytes {
        return Err(BrpError::ImageTooLarge { need: len, limit: opts.max_image_bytes });
    }
    // Fallible allocation: a limit raised past what the machine has must still be an error
    // rather than an abort.
    let mut data: Vec<u8> = Vec::new();
    match data.try_reserve(len) {
        Ok(()) => {},
        Err(_) => {
            return Err(BrpError::AllocationFailed { bytes: len });
        },
    }
    data.resize(len, 0);
    let ghost good = held && same_header(header, h0) && header_len == n0;
    match restore_samples(bytes, &header, header_len, &coded, &mut data, Ghost(good), Ghost(h0), Ghost(k0), Ghost(d0)) {
        Ok(()) => {},
        Err(e) => {
            return Err(e);
        },
    }
    RawImage::new(header.width, header.height, header.channels, data)
}

/// Steps 1 to 4 of a decode, into the zeroed sample buffer: constant channels, the coded channels
/// from the body with prediction undone, aliases, and the alphabet maps.
///
/// When `good` holds, the file holds `(h0, k0, d0)` and `header` is its header; the samples are
/// then restored exactly, or the recovered ranks are not all valid.
#[verifier::spinoff_prover]
#[verifier::rlimit(60)]
fn restore_samples(
    bytes: &[u8],
    header: &Header,
    header_len: usize,
    coded: &CodedIndices,
    data: &mut Vec<u8>,
    Ghost(good): Ghost<bool>,
    Ghost(h0): Ghost<Header>,
    Ghost(k0): Ghost<Seq<u8>>,
    Ghost(d0): Ghost<Seq<u8>>,
) -> (r: Result<(), BrpError>)
    requires
        header.block_coder <= BLOCK_CODER_CONTEXT,
        bytes@.len() <= usize::MAX / 8,
        header.wf(),
        header.plan.spec_channels() == header.channels,
        1 <= header.channels <= 4,
        header.block_w > 0,
        header.block_h > 0,
        coded.wf(),
        coded.spec_slots() == header.plan.spec_coded(),
        old(data)@.len() == header.width * header.height * header.channels,
        forall|i: int| 0 <= i < old(data)@.len() ==> old(data)@[i] == 0u8,
        good ==> file_leads(bytes@, h0, k0, d0) && same_header(*header, h0) && header_len
            == h0.spec_bytes().len(),
    ensures
        final(data)@.len() == old(data)@.len(),
        good ==> match r {
            Ok(()) => ranks_valid(h0, restored_ranks(h0, k0, d0)) && final(data)@ == restored(
                h0,
                k0,
                d0,
            ),
            Err(e) => match e {
                BrpError::AlphabetRankOutOfRange { .. } => !ranks_valid(
                    h0,
                    restored_ranks(h0, k0, d0),
                ),
                BrpError::ImageTooLarge { .. } => old(data)@.len() > u64::MAX / 64,
                _ => false,
            },
        },
{
    let stride = header.channels as usize;
    let len = data.len();
    let ghost zero = data@;
    let ghost n0 = h0.spec_bytes().len() as int;
    let ghost rest = bytes@.subrange(n0, bytes@.len() as int);
    proof {
        lemma_coded_list(header.plan.spec_modes(), header.channels as nat);
        if good {
            lemma_same_header_decodes_alike(*header, h0, k0, d0);
        }
    }

    // Step 1: constant channels.
    fill_constants(data, &header.plan, stride);
    let ghost constants = data@;

    // Step 2: coded channels, from the block stream.
    if !coded.is_empty() {
        let empty: &[u8] = &[];
        let body = if header_len <= bytes.len() {
            vstd::slice::slice_subrange(bytes, header_len, bytes.len())
        } else {
            empty
        };
        let layout = FilterLayout::from_mode(header.filter_mode);
        if len as u64 > u64::MAX / 64 {
            return Err(BrpError::ImageTooLarge { need: len, limit: len });
        }
        proof {
            if good {
                assert(body@ =~= rest);
                assert(body_ready(*header, body@, k0, d0));
            }
        }
        let kinds = match read_body(body, header, coded, data, Ghost(k0), Ghost(d0)) {
            Ok(k) => k,
            Err(e) => {
                return Err(e);
            },
        };
        let ghost res = data@;
        proof {
            if good {
                assert(res =~= assembled(h0, d0));
            }
        }

        // Turn residuals back into samples, in raster order so each prediction reads neighbours
        // this loop has already restored.
        match layout {
            Some(l) => {
                proof {
                    assert(predict::geometry_ok(
                        data@.len(),
                        header.width as nat,
                        header.height as nat,
                        stride as nat,
                        coded.spec_slots(),
                    )) by {
                        assert forall|k: int| 0 <= k < coded.spec_slots().len() implies coded.spec_slots()[k]
                            < stride by {
                            assert(coded.spec_slots().contains(coded.spec_slots()[k]));
                        }
                    }
                }
                predict::undo_in_place(
                    l,
                    data,
                    header.width,
                    header.height,
                    stride,
                    coded,
                    kinds.as_slice(),
                );
                proof {
                    if good {
                        let chosen = crate::file::unpredicted(h0, k0, res);
                        assert(predict::is_residual_plane(
                            l,
                            k0,
                            chosen,
                            res,
                            header.width as int,
                            stride as int,
                            coded.spec_slots(),
                        ));
                        predict::lemma_residuals_determine_source(
                            l,
                            k0,
                            data@,
                            chosen,
                            res,
                            header.width as nat,
                            header.height as nat,
                            stride as nat,
                            coded.spec_slots(),
                        );
                    }
                }
            },
            None => {},
        }
    } else {
        proof {
            if good {
                assert(data@ =~= assembled(h0, d0));
            }
        }
    }
    proof {
        if good {
            assert(data@ == crate::file::unpredicted(h0, k0, assembled(h0, d0)));
        }
    }
    // Step 3: aliases, copied from their targets. Targets are always coded, so they exist by now.
    fill_aliases(data, &header.plan, stride);
    proof {
        if good {
            assert(data@ == restored_ranks(h0, k0, d0));
        }
    }

    // Step 4: turn ranks back into samples, last, because stage 1 worked in rank space.
    let ghost ranks = data@;
    match alphabet::undo_in_place(data, stride, &header.alphabet) {
        Ok(()) => {},
        Err(e) => {
            proof {
                if good {
                    let i = choose|i: int|
                        #[trigger] alphabet::is_first_invalid(
                            header.alphabet.entries(),
                            stride as nat,
                            ranks,
                            i,
                            e,
                        );
                    assert(alphabet::rank_invalid(header.alphabet.entries(), stride as nat, i, ranks[i]));
                    assert(!ranks_valid(*header, ranks));
                }
            }
            return Err(e);
        },
    }
    proof {
        if good {
            assert(ranks_valid(*header, ranks)) by {
                assert forall|i: int| 0 <= i < ranks.len() implies !alphabet::rank_invalid(
                    header.alphabet.entries(),
                    stride as nat,
                    i,
                    #[trigger] ranks[i],
                ) by {
                    assert(data@[i] == alphabet::unranked(
                        header.alphabet.entries(),
                        stride as nat,
                        i,
                        ranks[i],
                    ));
                }
            }
            assert(data@ =~= restored(h0, k0, d0));
        }
    }
    Ok(())
}

/// Writes each constant channel's value into all of its samples.
fn fill_constants(data: &mut Vec<u8>, plan: &ChannelPlan, stride: usize)
    requires
        plan.wf(),
        stride == plan.spec_channels(),
    ensures
        final(data)@.len() == old(data)@.len(),
        forall|j: int|
            0 <= j < old(data)@.len() ==> #[trigger] final(data)@[j] == match plan.spec_modes()[j
                % (stride as int)] {
                ChannelMode::Constant(v) => v,
                _ => old(data)@[j],
            },
{
    let ghost s = stride as int;
    let mut c: usize = 0;
    while c < stride
        invariant
            plan.wf(),
            stride == plan.spec_channels(),
            s == stride,
            1 <= stride <= 4,
            c <= stride,
            data@.len() == old(data)@.len(),
            forall|j: int|
                0 <= j < old(data)@.len() ==> #[trigger] data@[j] == if j % s < c {
                    match plan.spec_modes()[j % s] {
                        ChannelMode::Constant(v) => v,
                        _ => old(data)@[j],
                    }
                } else {
                    old(data)@[j]
                },
        decreases stride - c,
    {
        match plan.mode(c) {
            ChannelMode::Constant(v) => {
                fill_channel(data, c, stride, v);
            },
            _ => {},
        }
        c = c + 1;
    }
}

/// Index `j` of channel `c` shifted to channel `t` of the same pixel.
proof fn lemma_channel_shift(j: int, s: int, t: int)
    requires
        0 <= j,
        0 <= t < s,
    ensures
        0 <= j - j % s + t,
        (j - j % s + t) % s == t,
        j % s > t ==> j - j % s + t < j,
{
    vstd::arithmetic::div_mod::lemma_fundamental_div_mod(j, s);
    vstd::arithmetic::div_mod::lemma_div_pos_is_pos(j, s);
    let q = j / s;
    assert(s * q >= 0) by (nonlinear_arith)
        requires
            s > 0,
            q >= 0,
    ;
    vstd::arithmetic::div_mod::lemma_mod_multiples_vanish(q, t, s);
    vstd::arithmetic::div_mod::lemma_small_mod(t as nat, s as nat);
    assert(j - j % s + t == s * q + t);
}

/// Copies each aliased channel's samples from its target channel.
fn fill_aliases(data: &mut Vec<u8>, plan: &ChannelPlan, stride: usize)
    requires
        plan.wf(),
        stride == plan.spec_channels(),
    ensures
        final(data)@ == crate::file::aliases_filled(plan.spec_modes(), stride as int, old(data)@),
{
    let ghost s = stride as int;
    let ghost modes = plan.spec_modes();
    let ghost target = crate::file::aliases_filled(modes, s, old(data)@);
    let mut c: usize = 0;
    while c < stride
        invariant
            plan.wf(),
            stride == plan.spec_channels(),
            s == stride,
            modes == plan.spec_modes(),
            target == crate::file::aliases_filled(modes, s, old(data)@),
            1 <= stride <= 4,
            c <= stride,
            data@.len() == old(data)@.len(),
            forall|j: int|
                0 <= j < old(data)@.len() ==> #[trigger] data@[j] == if j % s < c {
                    target[j]
                } else {
                    old(data)@[j]
                },
        decreases stride - c,
    {
        match plan.mode(c) {
            ChannelMode::Alias(t) => {
                proof {
                    assert(target_of(modes[c as int]) < c);
                }
                let ghost before = data@;
                copy_channel(data, t as usize, c, stride);
                proof {
                    assert forall|j: int| 0 <= j < old(data)@.len() implies #[trigger] data@[j] == if j
                        % s < c + 1 {
                        target[j]
                    } else {
                        old(data)@[j]
                    } by {
                        if j % s == c {
                            lemma_channel_shift(j, s, t as int);
                            let k = j - c + t;
                            assert(before[k] == target[k]);
                            assert(modes[t as int] == ChannelMode::Coded);
                        }
                    }
                }
            },
            _ => {},
        }
        c = c + 1;
    }
    assert(data@ =~= target) by {
        assert forall|j: int| 0 <= j < old(data)@.len() implies data@[j] == target[j] by {
            vstd::arithmetic::div_mod::lemma_mod_bound(j, s);
        }
    }
}

/// The bits after a header are as the encoder writes them for predictor codes `kinds` and plane
/// `d`.
pub open spec fn body_ready(h: Header, body: Seq<u8>, kinds: Seq<u8>, d: Seq<u8>) -> bool {
    &&& kinds.len() == unit_count(h)
    &&& forall|u: int| 0 <= u < kinds.len() ==> #[trigger] kinds[u] < FILTER_KINDS
    &&& padded(body_bits(h, kinds, d)).len() <= byte_bits(body).len()
    &&& byte_bits(body).subrange(0, padded(body_bits(h, kinds, d)).len() as int) == padded(
        body_bits(h, kinds, d),
    )
}

/// `bytes` begins with a file that holds `(h, kinds, d)`: the header, then the body as the encoder
/// writes it, then possibly more whole bytes, which a reader never reaches.
pub open spec fn file_leads(bytes: Seq<u8>, h: Header, kinds: Seq<u8>, d: Seq<u8>) -> bool {
    let n = h.spec_bytes().len();
    &&& crate::header::header_valid(h)
    &&& d.len() == h.width * h.height * h.channels
    &&& kinds.len() == unit_count(h)
    &&& forall|u: int| 0 <= u < kinds.len() ==> #[trigger] kinds[u] < FILTER_KINDS
    &&& n <= bytes.len()
    &&& bytes.subrange(0, n as int) == h.spec_bytes()
    &&& h.plan.spec_coded().len() > 0 ==> body_ready(h, bytes.subrange(n as int, bytes.len() as int), kinds, d)
}

/// A file followed by more bytes still leads with that file.
pub proof fn lemma_file_leads(bytes: Seq<u8>, m: int, h: Header, kinds: Seq<u8>, d: Seq<u8>)
    requires
        0 <= m <= bytes.len(),
        file_holds(bytes.subrange(0, m), h, kinds, d),
    ensures
        file_leads(bytes, h, kinds, d),
{
    let b = bytes.subrange(0, m);
    let n = h.spec_bytes().len() as int;
    assert(bytes.subrange(0, n) =~= b.subrange(0, n));
    if h.plan.spec_coded().len() > 0 {
        let exact = b.subrange(n, m);
        let whole = bytes.subrange(n, bytes.len() as int);
        let extra = bytes.subrange(m, bytes.len() as int);
        assert(whole =~= exact + extra);
        crate::bits::lemma_byte_bits_append(exact, extra);
        let p = padded(body_bits(h, kinds, d));
        assert(byte_bits(whole).subrange(0, p.len() as int) =~= p);
    }
}

/// Reads what follows the header: the predictor codes, then every block, then the padding.
///
/// Where `body` holds the predictor codes `kinds_t` and the blocks of a plane `d` as the encoder
/// writes them, this returns `kinds_t` and fills in `d`'s samples of every coded channel.
fn read_body(
    body: &[u8],
    header: &Header,
    coded: &CodedIndices,
    data: &mut Vec<u8>,
    Ghost(kinds_t): Ghost<Seq<u8>>,
    Ghost(d): Ghost<Seq<u8>>,
) -> (r: Result<Vec<u8>, BrpError>)
    requires
        header.block_coder <= BLOCK_CODER_CONTEXT,
        body@.len() <= usize::MAX / 8,
        header.wf(),
        header.plan.spec_channels() == header.channels,
        1 <= header.channels <= 4,
        header.block_w > 0,
        header.block_h > 0,
        coded.wf(),
        coded.spec_slots() == header.plan.spec_coded(),
        ascending_below(coded.spec_slots(), header.channels as nat),
        old(data)@.len() == header.width * header.height * header.channels,
        old(data)@.len() <= u64::MAX / 64,
    ensures
        final(data)@.len() == old(data)@.len(),
        r matches Ok(kinds) ==> kinds@.len() == unit_count(*header) && forall|u: int|
            0 <= u < kinds@.len() ==> #[trigger] kinds@[u] < FILTER_KINDS,
        body_ready(*header, body@, kinds_t, d) && d.len() == old(data)@.len() ==> (r matches Ok(
            kinds,
        ) && kinds@ == kinds_t && forall|i: int|
            0 <= i < d.len() ==> #[trigger] final(data)@[i] == if predict::is_coded(
                coded.spec_slots(),
                i,
                header.channels as int,
            ) {
                d[i]
            } else {
                old(data)@[i]
            }),
{
    let stride = header.channels as usize;
    let grid = BlockGrid::new(header.width, header.height, header.block_w, header.block_h);
    let ghost good = body_ready(*header, body@, kinds_t, d) && d.len() == old(data)@.len();
    let ghost kb = kind_bits(kinds_t);
    let ghost gb = crate::ctx_stream::blocks_bits(
        grid,
        d,
        stride as int,
        coded.spec_slots(),
        header.block_coder,
    );
    let mut reader = BitReader::new(body);
    proof {
        reader.lemma_bits_len();
        lemma_kind_bits_len(kinds_t);
        if good {
            assert(body_bits(*header, kinds_t, d) == kb + gb);
            crate::stream::lemma_prefix_append(kb + gb, zeros(pad_len((kb + gb).len())));
            assert(bits_at(reader.bits(), 0, kb + gb)) by {
                assert(reader.bits().subrange(0, (kb + gb).len() as int) =~= kb + gb);
            }
            lemma_bits_at_split(reader.bits(), 0, kb, gb);
        }
    }
    let ghost s0 = reader.bits();

    // The predictor codes precede the blocks, so they are available before they are needed.
    let layout = FilterLayout::from_mode(header.filter_mode);
    let mut kinds: Vec<u8> = Vec::new();
    match layout {
        Some(l) => {
            let total = data.len();
            proof {
                assert(header.width * header.height * stride <= usize::MAX) by {
                    assert(data@.len() == total);
                }
                predict::lemma_units_fit(l, header.width as nat, header.height as nat, stride as nat);
            }
            let units = l.units(header.width, header.height);
            let mut u: usize = 0;
            while u < units
                invariant
                    reader.wf(),
                    reader.bits() == s0,
                    u <= units,
                    units == unit_count(*header),
                    kinds@.len() == u,
                    forall|k: int| 0 <= k < u ==> #[trigger] kinds@[k] < FILTER_KINDS,
                    good == (body_ready(*header, body@, kinds_t, d) && d.len() == old(data)@.len()),
                    kb == kind_bits(kinds_t),
                    good ==> bits_at(s0, 0, kb),
                    good ==> kinds@ == kinds_t.take(u as int),
                    good ==> reader.pos() == 3 * u,
                decreases units - u,
            {
                proof {
                    if good {
                        lemma_kind_bits_prefix(kinds_t, u as nat);
                        lemma_bits_at_prefix(s0, 0, kind_bits(kinds_t.take(u as int + 1)), kb);
                        lemma_kind_bits_len(kinds_t.take(u as int));
                        lemma_bits_at_split(
                            s0,
                            0,
                            kind_bits(kinds_t.take(u as int)),
                            bits_of(kinds_t[u as int] as nat, 3),
                        );
                        lemma_bits_of_len(kinds_t[u as int] as nat, 3);
                        lemma2_to64();
                        lemma_field_reads(s0, 3 * u as nat, kinds_t[u as int] as nat, 3);
                    }
                }
                let kind = match reader.read(FILTER_KIND_BITS) {
                    Ok(k) => k,
                    Err(e) => {
                        return Err(e);
                    },
                };
                if kind >= FILTER_KINDS as u32 {
                    return Err(BrpError::InvalidFilterKind(kind as u8));
                }
                kinds.push(kind as u8);
                proof {
                    if good {
                        assert(kinds@ =~= kinds_t.take(u as int + 1));
                    }
                }
                u = u + 1;
            }
            proof {
                if good {
                    assert(kinds_t.take(u as int) =~= kinds_t);
                }
            }
        },
        None => {
            proof {
                if good {
                    assert(kinds_t =~= Seq::<u8>::empty());
                    assert(kinds@ =~= kinds_t);
                }
            }
        },
    }
    proof {
        assert(plane_ok(data@, grid, stride as nat, coded.spec_slots())) by {
            assert forall|k: int| 0 <= k < coded.spec_slots().len() implies coded.spec_slots()[k]
                < stride by {
                assert(coded.spec_slots().contains(coded.spec_slots()[k]));
            }
            coded.lemma_wf();
        }
    }
    proof {
        if header.block_coder == BLOCK_CODER_CONTEXT {
            assert(gb == crate::ctx_stream::context_bits(grid, d, stride as int, coded.spec_slots()));
        } else {
            assert(header.block_coder == coder_of(header.block_coder == BLOCK_CODER_RICE));
            assert(gb == grid_bits(grid, d, stride as int, coded.spec_slots(), header.block_coder, grid.spec_blocks_y()));
        }
    }
    if header.block_coder == BLOCK_CODER_CONTEXT {
        match read_context_blocks(&mut reader, data, stride, coded, &grid, Ghost(d)) {
            Ok(()) => {},
            Err(e) => {
                return Err(e);
            },
        }
    } else {
        match read_parametered_blocks(
            &mut reader,
            data,
            stride,
            coded,
            &grid,
            header.block_coder == BLOCK_CODER_RICE,
            Ghost(d),
        ) {
            Ok(()) => {},
            Err(e) => {
                return Err(e);
            },
        }
    }
    proof {
        if good {
            reader.lemma_bits_len();
            let pos = reader.pos();
            assert(pos == (kb + gb).len());
            assert(BitReader::padding_clear(reader.bits(), pos)) by {
                assert forall|i: int| pos <= i < pos + pad_len(pos) && i < reader.bits().len()
                    implies !#[trigger] reader.bits()[i] by {
                    let p = padded(kb + gb);
                    assert(p == padded(body_bits(*header, kinds_t, d)));
                    assert(i < p.len());
                    assert(reader.bits().subrange(0, p.len() as int)[i] == reader.bits()[i]);
                    assert(p[i] == zeros(pad_len((kb + gb).len()))[i - pos]);
                }
            }
        }
    }
    match reader.verify_padding() {
        Ok(()) => {},
        Err(e) => {
            return Err(e);
        },
    }
    Ok(kinds)
}

/// Sets every sample of channel `c` to `v`.
fn fill_channel(data: &mut Vec<u8>, c: usize, stride: usize, v: u8)
    requires
        c < stride,
    ensures
        final(data)@.len() == old(data)@.len(),
        forall|j: int|
            0 <= j < old(data)@.len() ==> #[trigger] final(data)@[j] == if j % (stride as int) == c {
                v
            } else {
                old(data)@[j]
            },
{
    let len = data.len();
    let ghost s = stride as int;
    let ghost mut t: int = 0;
    let mut i = c;
    while i < len
        invariant
            data@.len() == len,
            len == old(data)@.len(),
            c < stride,
            s == stride,
            t >= 0,
            i < len ==> i == c + t * s,
            i >= len ==> c + t * s >= len,
            forall|j: int|
                0 <= j < len ==> #[trigger] data@[j] == if j % s == c && j / s < t {
                    v
                } else {
                    old(data)@[j]
                },
        decreases len - i,
    {
        data.set(i, v);
        proof {
            assert(i as int / s == t && i as int % s == c) by {
                vstd::arithmetic::div_mod::lemma_fundamental_div_mod_converse(i as int, s, t, c as int);
            }
            assert forall|j: int| 0 <= j < len implies #[trigger] data@[j] == if j % s == c && j / s
                < t + 1 {
                v
            } else {
                old(data)@[j]
            } by {
                if j != i && j % s == c && j / s == t {
                    lemma_fundamental_div_mod(j, s);
                }
            }
        }
        if len - i > stride {
            i = i + stride;
            proof {
                assert((t + 1) * s == t * s + s) by (nonlinear_arith);
                t = t + 1;
            }
        } else {
            proof {
                assert((t + 1) * s == t * s + s) by (nonlinear_arith);
                t = t + 1;
            }
            i = len;
        }
    }
    proof {
        assert forall|j: int| 0 <= j < len implies #[trigger] data@[j] == if j % s == c {
            v
        } else {
            old(data)@[j]
        } by {
            if j % s == c {
                lemma_fundamental_div_mod(j, s);
                if j / s >= t {
                    assert(s * (j / s) >= s * t) by (nonlinear_arith)
                        requires
                            j / s >= t,
                            s > 0,
                    ;
                }
            }
        }
    }
}

/// Copies channel `src` over channel `dst`, sample by sample.
fn copy_channel(data: &mut Vec<u8>, src: usize, dst: usize, stride: usize)
    requires
        src < dst < stride,
    ensures
        final(data)@.len() == old(data)@.len(),
        forall|j: int|
            0 <= j < old(data)@.len() ==> #[trigger] final(data)@[j] == if j % (stride as int) == dst {
                old(data)@[j - dst + src]
            } else {
                old(data)@[j]
            },
{
    let len = data.len();
    let gap = dst - src;
    let ghost s = stride as int;
    let ghost mut t: int = 0;
    let mut d = dst;
    while d < len
        invariant
            data@.len() == len,
            len == old(data)@.len(),
            gap == dst - src,
            src < dst < stride,
            s == stride,
            t >= 0,
            d < len ==> d == dst + t * s,
            d >= len ==> dst + t * s >= len,
            forall|j: int|
                0 <= j < len ==> #[trigger] data@[j] == if j % s == dst && j / s < t {
                    old(data)@[j - dst + src]
                } else {
                    old(data)@[j]
                },
        decreases len - d,
    {
        proof {
            assert(d as int / s == t && d as int % s == dst) by {
                vstd::arithmetic::div_mod::lemma_fundamental_div_mod_converse(d as int, s, t, dst as int);
            }
            let k = d - gap;
            assert(k as int / s == t && k as int % s == src) by {
                vstd::arithmetic::div_mod::lemma_fundamental_div_mod_converse(k as int, s, t, src as int);
            }
        }
        let v = data[d - gap];
        data.set(d, v);
        proof {
            assert forall|j: int| 0 <= j < len implies #[trigger] data@[j] == if j % s == dst && j / s
                < t + 1 {
                old(data)@[j - dst + src]
            } else {
                old(data)@[j]
            } by {
                if j != d && j % s == dst && j / s == t {
                    lemma_fundamental_div_mod(j, s);
                }
            }
        }
        if len - d > stride {
            d = d + stride;
            proof {
                assert((t + 1) * s == t * s + s) by (nonlinear_arith);
                t = t + 1;
            }
        } else {
            proof {
                assert((t + 1) * s == t * s + s) by (nonlinear_arith);
                t = t + 1;
            }
            d = len;
        }
    }
    proof {
        assert forall|j: int| 0 <= j < len implies #[trigger] data@[j] == if j % s == dst {
            old(data)@[j - dst + src]
        } else {
            old(data)@[j]
        } by {
            if j % s == dst {
                lemma_fundamental_div_mod(j, s);
                if j / s >= t {
                    assert(s * (j / s) >= s * t) by (nonlinear_arith)
                        requires
                            j / s >= t,
                            s > 0,
                    ;
                }
            }
        }
    }
}

/// Sample `i` lies in a block before column `bx` of block row `by`, in raster order.
pub open spec fn blocks_done(i: int, w: int, stride: int, grid: BlockGrid, by: int, bx: int) -> bool {
    let gx = col_of(i, w, stride) / (grid.spec_block_w() as int);
    let gy = row_of(i, w, stride) / (grid.spec_block_h() as int);
    gy < by || (gy == by && gx < bx)
}

/// A pixel lies in block `(bx, by)` exactly when its coordinates divide down to that block.
proof fn lemma_in_block(grid: BlockGrid, bx: nat, by: nat, x: int, y: int)
    requires
        grid.wf(),
        bx < grid.spec_blocks_x(),
        by < grid.spec_blocks_y(),
        0 <= x < grid.spec_width(),
        0 <= y < grid.spec_height(),
    ensures
        ({
            let r = grid.spec_rect(bx, by);
            (r.x <= x < r.x + r.w && r.y <= y < r.y + r.h) == (x / (grid.spec_block_w() as int)
                == bx && y / (grid.spec_block_h() as int) == by)
        }),
{
    grid.lemma_wf();
    let bw = grid.spec_block_w() as int;
    let bh = grid.spec_block_h() as int;
    crate::block::lemma_block_origin(bx, bw as nat, grid.spec_width() as nat);
    crate::block::lemma_block_origin(by, bh as nat, grid.spec_height() as nat);
    lemma_fundamental_div_mod(x, bw);
    lemma_fundamental_div_mod(y, bh);
    lemma_mod_pos_bound(x, bw);
    lemma_mod_pos_bound(y, bh);
    let qx = x / bw;
    let qy = y / bh;
    assert((bx * bw <= x < bx * bw + bw) == (qx == bx)) by (nonlinear_arith)
        requires
            x == bw * qx + x % bw,
            0 <= x % bw < bw,
            bw > 0,
    ;
    assert((by * bh <= y < by * bh + bh) == (qy == by)) by (nonlinear_arith)
        requires
            y == bh * qy + y % bh,
            0 <= y % bh < bh,
            bh > 0,
    ;
}

/// Reads every block under the fixed-width and Rice coders, where each block-channel names its
/// own base and parameter.
///
/// Where the stream holds the grid as the encoder writes it for a plane `d`, this reads it whole
/// and fills in `d`'s samples of every coded channel, leaving the other channels alone.
fn read_parametered_blocks(
    reader: &mut BitReader,
    data: &mut Vec<u8>,
    stride: usize,
    coded: &CodedIndices,
    grid: &BlockGrid,
    rice_coded: bool,
    Ghost(d): Ghost<Seq<u8>>,
) -> (r: Result<(), BrpError>)
    requires
        old(reader).wf(),
        coded.wf(),
        plane_ok(old(data)@, *grid, stride as nat, coded.spec_slots()),
    ensures
        final(reader).wf(),
        final(reader).bits() == old(reader).bits(),
        final(data)@.len() == old(data)@.len(),
        d.len() == old(data)@.len() && bits_at(
            old(reader).bits(),
            old(reader).pos(),
            grid_bits(
                *grid,
                d,
                stride as int,
                coded.spec_slots(),
                coder_of(rice_coded),
                grid.spec_blocks_y(),
            ),
        ) ==> {
            &&& r is Ok
            &&& final(reader).pos() == old(reader).pos() + grid_bits(
                *grid,
                d,
                stride as int,
                coded.spec_slots(),
                coder_of(rice_coded),
                grid.spec_blocks_y(),
            ).len()
            &&& forall|i: int|
                0 <= i < d.len() ==> #[trigger] final(data)@[i] == if predict::is_coded(
                    coded.spec_slots(),
                    i,
                    stride as int,
                ) {
                    d[i]
                } else {
                    old(data)@[i]
                }
        },
{
    let ghost slots = coded.spec_slots();
    let ghost s0 = reader.bits();
    let ghost p0 = reader.pos();
    let ghost coder = coder_of(rice_coded);
    let ghost si = stride as int;
    let ghost gw = grid.spec_width() as int;
    let ghost gh = grid.spec_height() as int;
    let ghost all = grid_bits(*grid, d, si, slots, coder, grid.spec_blocks_y());
    let ghost good = d.len() == old(data)@.len() && bits_at(s0, p0, all);
    let total = data.len();
    let img_w = grid.width();
    let n = coded.len();
    let nx = grid.blocks_x();
    let ny = grid.blocks_y();
    proof {
        grid.lemma_wf();
        assert forall|i: int| 0 <= i < total implies !blocks_done(i, gw, si, *grid, 0, 0) by {
            lemma_sample_in_grid(*grid, si, i);
        }
    }
    let mut by: u32 = 0;
    while by < ny
        invariant
            reader.wf(),
            reader.bits() == s0,
            s0 == old(reader).bits(),
            p0 == old(reader).pos(),
            coded.wf(),
            data@.len() == total,
            plane_ok(data@, *grid, stride as nat, slots),
            slots == coded.spec_slots(),
            img_w == grid.spec_width(),
            gw == img_w,
            gh == grid.spec_height(),
            si == stride,
            coder == coder_of(rice_coded),
            all == grid_bits(*grid, d, si, slots, coder, grid.spec_blocks_y()),
            good == (d.len() == old(data)@.len() && bits_at(s0, p0, all)),
            n == slots.len(),
            nx == grid.spec_blocks_x(),
            ny == grid.spec_blocks_y(),
            data@.len() == old(data)@.len(),
            by <= ny,
            good ==> reader.pos() == p0 + grid_bits(*grid, d, si, slots, coder, by as nat).len(),
            good ==> forall|i: int|
                0 <= i < total ==> #[trigger] data@[i] == if blocks_done(
                    i,
                    gw,
                    si,
                    *grid,
                    by as int,
                    0,
                ) && predict::is_coded(slots, i, si) {
                    d[i]
                } else {
                    old(data)@[i]
                },
        decreases ny - by,
    {
        let ghost rows_before = grid_bits(*grid, d, si, slots, coder, by as nat);
        let ghost this_row = row_bits(*grid, d, si, slots, coder, by as nat, nx as nat);
        proof {
            if good {
                lemma_grid_prefix(*grid, d, si, slots, coder, (by + 1) as nat, ny as nat);
                lemma_bits_at_prefix(s0, p0, grid_bits(*grid, d, si, slots, coder, (by + 1) as nat), all);
                lemma_bits_at_split(s0, p0, rows_before, this_row);
                assert forall|i: int| 0 <= i < total implies (#[trigger] data@[i]) == if blocks_done(
                    i,
                    gw,
                    si,
                    *grid,
                    by as int,
                    0,
                ) && predict::is_coded(slots, i, si) {
                    d[i]
                } else {
                    old(data)@[i]
                } by {}
            }
        }
        let mut bx: u32 = 0;
        while bx < nx
            invariant
                reader.wf(),
                reader.bits() == s0,
                s0 == old(reader).bits(),
                p0 == old(reader).pos(),
                coded.wf(),
                data@.len() == total,
                plane_ok(data@, *grid, stride as nat, slots),
                slots == coded.spec_slots(),
                img_w == grid.spec_width(),
                gw == img_w,
                gh == grid.spec_height(),
                si == stride,
                coder == coder_of(rice_coded),
                all == grid_bits(*grid, d, si, slots, coder, grid.spec_blocks_y()),
                good == (d.len() == old(data)@.len() && bits_at(s0, p0, all)),
                rows_before == grid_bits(*grid, d, si, slots, coder, by as nat),
                this_row == row_bits(*grid, d, si, slots, coder, by as nat, nx as nat),
                n == slots.len(),
                nx == grid.spec_blocks_x(),
                ny == grid.spec_blocks_y(),
                data@.len() == old(data)@.len(),
                by < ny,
                bx <= nx,
                good ==> bits_at(s0, p0 + rows_before.len(), this_row),
                good ==> reader.pos() == p0 + rows_before.len() + row_bits(
                    *grid,
                    d,
                    si,
                    slots,
                    coder,
                    by as nat,
                    bx as nat,
                ).len(),
                good ==> forall|i: int|
                    0 <= i < total ==> #[trigger] data@[i] == if blocks_done(
                        i,
                        gw,
                        si,
                        *grid,
                        by as int,
                        bx as int,
                    ) && predict::is_coded(slots, i, si) {
                        d[i]
                    } else {
                        old(data)@[i]
                    },
            decreases nx - bx,
        {
            let rect = grid.rect(bx, by);
            proof {
                crate::encode::lemma_rect_fits(*grid, data@, stride as nat, bx as nat, by as nat);
                assert(img_w > 0) by {
                    if img_w == 0 {
                        assert(crate::block::ceil_div(0, grid.spec_block_w() as nat) == 0);
                    }
                }
                if good {
                    lemma_row_prefix(*grid, d, si, slots, coder, by as nat, (bx + 1) as nat, nx as nat);
                    lemma_bits_at_prefix(
                        s0,
                        p0 + rows_before.len(),
                        row_bits(*grid, d, si, slots, coder, by as nat, (bx + 1) as nat),
                        this_row,
                    );
                    lemma_bits_at_split(
                        s0,
                        p0 + rows_before.len(),
                        row_bits(*grid, d, si, slots, coder, by as nat, bx as nat),
                        block_bits(d, gw, si, slots, rect, coder),
                    );
                }
            }
            let ghost before = data@;
            match read_block(
                reader,
                data,
                img_w,
                stride,
                coded,
                &rect,
                rice_coded,
                Ghost(grid.spec_height() as nat),
                Ghost(d),
            ) {
                Ok(()) => {},
                Err(e) => {
                    return Err(e);
                },
            }
            proof {
                if good {
                    assert forall|i: int| 0 <= i < total implies #[trigger] data@[i] == if blocks_done(
                        i,
                        gw,
                        si,
                        *grid,
                        by as int,
                        (bx + 1) as int,
                    ) && predict::is_coded(slots, i, si) {
                        d[i]
                    } else {
                        old(data)@[i]
                    } by {
                        lemma_sample_in_grid(*grid, si, i);
                        lemma_in_block(*grid, bx as nat, by as nat, col_of(i, gw, si), row_of(i, gw, si));
                        assert(before[i] == if blocks_done(i, gw, si, *grid, by as int, bx as int)
                            && predict::is_coded(slots, i, si) {
                            d[i]
                        } else {
                            old(data)@[i]
                        });
                    }
                }
            }
            bx = bx + 1;
        }
        proof {
            if good {
                assert forall|i: int| 0 <= i < total implies #[trigger] data@[i] == if blocks_done(
                    i,
                    gw,
                    si,
                    *grid,
                    (by + 1) as int,
                    0,
                ) && predict::is_coded(slots, i, si) {
                    d[i]
                } else {
                    old(data)@[i]
                } by {
                    lemma_sample_in_grid(*grid, si, i);
                }
            }
        }
        by = by + 1;
    }
    proof {
        if good {
            assert forall|i: int| 0 <= i < total implies #[trigger] data@[i] == if predict::is_coded(
                slots,
                i,
                si,
            ) {
                d[i]
            } else {
                old(data)@[i]
            } by {
                lemma_sample_in_grid(*grid, si, i);
            }
        }
    }
    Ok(())
}

/// Two planes whose grid codes both start at one place agree on every coded sample: the stream
/// determines the plane it was written from.
pub proof fn lemma_plane_unique(
    grid: BlockGrid,
    d: Seq<u8>,
    e: Seq<u8>,
    stride: int,
    slots: Seq<usize>,
    coder: u8,
    s: Seq<bool>,
    pos: nat,
)
    requires
        coder == BLOCK_CODER_FIXED || coder == BLOCK_CODER_RICE,
        grid.wf(),
        0 < stride <= 4,
        d.len() == grid.spec_width() * grid.spec_height() * stride,
        e.len() == d.len(),
        forall|k: int| 0 <= k < slots.len() ==> slots[k] < stride,
        bits_at(s, pos, grid_bits(grid, d, stride, slots, coder, grid.spec_blocks_y())),
        bits_at(s, pos, grid_bits(grid, e, stride, slots, coder, grid.spec_blocks_y())),
    ensures
        grid_bits(grid, d, stride, slots, coder, grid.spec_blocks_y()).len() == grid_bits(
            grid,
            e,
            stride,
            slots,
            coder,
            grid.spec_blocks_y(),
        ).len(),
        forall|i: int| 0 <= i < d.len() && predict::is_coded(slots, i, stride) ==> d[i] == e[i],
{
    let w = grid.spec_width() as int;
    crate::stream::lemma_grid_unique(grid, d, e, stride, slots, coder, grid.spec_blocks_y(), s, pos);
    assert forall|i: int| 0 <= i < d.len() && predict::is_coded(slots, i, stride) implies d[i] == e[i] by {
        lemma_sample_in_grid(grid, stride, i);
        let x = col_of(i, w, stride);
        let y = row_of(i, w, stride);
        let bx = (x / (grid.spec_block_w() as int)) as nat;
        let by = (y / (grid.spec_block_h() as int)) as nat;
        lemma_in_block(grid, bx, by, x, y);
        let r = grid.spec_rect(bx, by);
        let c = i % stride;
        assert(slots.contains(c as usize));
        let k = choose|k: int| 0 <= k < slots.len() && slots[k] == c as usize;
        assert(slots[k] as int == c);
        assert(slot_samples(d, w, stride, slots, r, k) == slot_samples(e, w, stride, slots, r, k));
        let row = (y - r.y) as nat;
        let col = (x - r.x) as nat;
        lemma_next_value(d, w, stride, r, c, row, col);
        lemma_next_value(e, w, stride, r, c, row, col);
        crate::stream::lemma_rows_prefix(d, w, stride, r, c, row, row);
        crate::stream::lemma_rows_prefix(e, w, stride, r, c, row, row);
        let pd = rows_values(d, w, stride, r, c, row) + row_values(d, w, stride, r, c, row as int).take(
            col as int,
        );
        let pe = rows_values(e, w, stride, r, c, row) + row_values(e, w, stride, r, c, row as int).take(
            col as int,
        );
        let t = pd.len() as int;
        assert(pe.len() == t);
        let bd = block_values(d, w, stride, r, c);
        let be = block_values(e, w, stride, r, c);
        assert(bd == slot_samples(d, w, stride, slots, r, k));
        assert(be == slot_samples(e, w, stride, slots, r, k));
        assert(bd[t] == d[index_of(w, stride, r.x + col, r.y + row, c)]) by {
            assert(bd.subrange(0, t + 1)[t] == bd[t]);
            assert(pd.push(d[index_of(w, stride, r.x + col, r.y + row, c)])[t] == d[index_of(
                w,
                stride,
                r.x + col,
                r.y + row,
                c,
            )]);
        }
        assert(be[t] == e[index_of(w, stride, r.x + col, r.y + row, c)]) by {
            assert(be.subrange(0, t + 1)[t] == be[t]);
            assert(pe.push(e[index_of(w, stride, r.x + col, r.y + row, c)])[t] == e[index_of(
                w,
                stride,
                r.x + col,
                r.y + row,
                c,
            )]);
        }
        assert(index_of(w, stride, r.x + col, r.y + row, c) == i);
    }
}

/// A sample of a grid's image names a pixel inside the image, and so a block of the grid.
proof fn lemma_sample_in_grid(grid: BlockGrid, stride: int, i: int)
    requires
        grid.wf(),
        stride > 0,
        0 <= i < grid.spec_width() * grid.spec_height() * stride,
    ensures
        grid.spec_width() > 0,
        grid.spec_height() > 0,
        0 <= col_of(i, grid.spec_width() as int, stride) < grid.spec_width(),
        0 <= row_of(i, grid.spec_width() as int, stride) < grid.spec_height(),
        0 <= i % stride < stride,
        i == index_of(
            grid.spec_width() as int,
            stride,
            col_of(i, grid.spec_width() as int, stride),
            row_of(i, grid.spec_width() as int, stride),
            i % stride,
        ),
        0 <= col_of(i, grid.spec_width() as int, stride) / (grid.spec_block_w() as int)
            < grid.spec_blocks_x(),
        0 <= row_of(i, grid.spec_width() as int, stride) / (grid.spec_block_h() as int)
            < grid.spec_blocks_y(),
{
    let w = grid.spec_width() as int;
    let h = grid.spec_height() as int;
    assert(w > 0 && h > 0) by (nonlinear_arith)
        requires
            0 <= i < w * h * stride,
            w >= 0,
            h >= 0,
            stride > 0,
    ;
    lemma_index_inverse(w, h, stride, i);
    lemma_block_of_pixel(grid, col_of(i, w, stride), row_of(i, w, stride));
}

/// Every pixel lies in some block of the grid.
proof fn lemma_block_of_pixel(grid: BlockGrid, x: int, y: int)
    requires
        grid.wf(),
        0 <= x < grid.spec_width(),
        0 <= y < grid.spec_height(),
    ensures
        0 <= x / (grid.spec_block_w() as int) < grid.spec_blocks_x(),
        0 <= y / (grid.spec_block_h() as int) < grid.spec_blocks_y(),
{
    grid.lemma_wf();
    let bw = grid.spec_block_w() as int;
    let bh = grid.spec_block_h() as int;
    crate::block::lemma_ceil_div(grid.spec_width() as nat, bw as nat);
    crate::block::lemma_ceil_div(grid.spec_height() as nat, bh as nat);
    lemma_div_pos_is_pos(x, bw);
    lemma_div_pos_is_pos(y, bh);
    lemma_div_is_ordered(x, grid.spec_width() as int, bw);
    lemma_div_is_ordered(y, grid.spec_height() as int, bh);
    lemma_fundamental_div_mod(grid.spec_width() as int, bw);
    lemma_fundamental_div_mod(grid.spec_height() as int, bh);
    lemma_fundamental_div_mod(x, bw);
    lemma_fundamental_div_mod(y, bh);
    lemma_mod_pos_bound(x, bw);
    lemma_mod_pos_bound(y, bh);
    lemma_mod_pos_bound(grid.spec_width() as int, bw);
    lemma_mod_pos_bound(grid.spec_height() as int, bh);
    let wq = grid.spec_width() as int / bw;
    let hq = grid.spec_height() as int / bh;
    assert(x / bw < wq || (x / bw == wq && grid.spec_width() as int % bw != 0)) by (nonlinear_arith)
        requires
            x == bw * (x / bw) + x % bw,
            0 <= x % bw < bw,
            grid.spec_width() as int == bw * wq + grid.spec_width() as int % bw,
            0 <= grid.spec_width() as int % bw,
            x < grid.spec_width(),
            x / bw <= wq,
            bw > 0,
    ;
    assert(y / bh < hq || (y / bh == hq && grid.spec_height() as int % bh != 0)) by (nonlinear_arith)
        requires
            y == bh * (y / bh) + y % bh,
            0 <= y % bh < bh,
            grid.spec_height() as int == bh * hq + grid.spec_height() as int % bh,
            0 <= grid.spec_height() as int % bh,
            y < grid.spec_height(),
            y / bh <= hq,
            bh > 0,
    ;
}

/// Sample `i` lies in block `r` of a `w`-pixel-wide image.
pub open spec fn in_rect(i: int, w: int, stride: int, r: BlockRect) -> bool {
    let x = col_of(i, w, stride);
    let y = row_of(i, w, stride);
    r.x <= x < r.x + r.w && r.y <= y < r.y + r.h
}

/// Sample `i` belongs to one of the first `s` coded channels.
pub open spec fn slot_done(slots: Seq<usize>, i: int, stride: int, s: int) -> bool {
    slots.take(s).contains((i % stride) as usize)
}

/// Within block `r`, the pixel of sample `i` comes before row `row`, column `col`.
pub open spec fn pixel_before(i: int, w: int, stride: int, r: BlockRect, row: int, col: int) -> bool {
    let y = row_of(i, w, stride) - r.y;
    let x = col_of(i, w, stride) - r.x;
    y < row || (y == row && x < col)
}

/// What reading block `r` has filled in so far: every sample of the first `s` coded channels,
/// and of channel `ch` every pixel before row `row`, column `col`.
pub open spec fn block_written(
    i: int,
    w: int,
    stride: int,
    r: BlockRect,
    slots: Seq<usize>,
    s: int,
    ch: int,
    row: int,
    col: int,
) -> bool {
    in_rect(i, w, stride, r) && (slot_done(slots, i, stride, s) || (i % stride == ch
        && pixel_before(i, w, stride, r, row, col)))
}

/// The first `s + 1` slots hold a channel when the first `s` do or slot `s` is it.
proof fn lemma_take_contains(slots: Seq<usize>, s: int, c: usize)
    requires
        0 <= s < slots.len(),
    ensures
        slots.take(s + 1).contains(c) == (slots.take(s).contains(c) || slots[s] == c),
{
    let t = slots.take(s + 1);
    if t.contains(c) {
        let k = choose|k: int| 0 <= k < t.len() && t[k] == c;
        if k < s {
            assert(slots.take(s)[k] == c);
        }
    }
    let u = slots.take(s);
    if u.contains(c) {
        let k = choose|k: int| 0 <= k < u.len() && u[k] == c;
        assert(slots.take(s + 1)[k] == c);
    }
    if slots[s] == c {
        assert(slots.take(s + 1)[s] == c);
    }
}

/// The block coder a `rice_coded` flag stands for.
pub open spec fn coder_of(rice_coded: bool) -> u8 {
    if rice_coded {
        BLOCK_CODER_RICE
    } else {
        BLOCK_CODER_FIXED
    }
}

/// Reads one block: every coded channel's base and parameter, then every payload.
///
/// Where the stream holds the block as the encoder writes it for a plane `d`, this reads it
/// whole and fills in `d`'s samples of the block's coded channels, leaving the rest of `data`
/// alone.
fn read_block(
    reader: &mut BitReader,
    data: &mut Vec<u8>,
    img_w: u32,
    stride: usize,
    coded: &CodedIndices,
    rect: &BlockRect,
    rice_coded: bool,
    Ghost(gh): Ghost<nat>,
    Ghost(d): Ghost<Seq<u8>>,
) -> (r: Result<(), BrpError>)
    requires
        old(reader).wf(),
        coded.wf(),
        coded.spec_slots().len() <= 4,
        forall|s: int| 0 <= s < coded.spec_slots().len() ==> coded.spec_slots()[s] < stride,
        img_w > 0,
        stride > 0,
        rect.x + rect.w <= img_w,
        rect.y + rect.h <= gh,
        rect.y + rect.h <= u32::MAX,
        old(data)@.len() == img_w * gh * stride,
        old(data)@.len() <= usize::MAX,
    ensures
        final(reader).wf(),
        final(reader).bits() == old(reader).bits(),
        final(data)@.len() == old(data)@.len(),
        d.len() == old(data)@.len() && bits_at(
            old(reader).bits(),
            old(reader).pos(),
            block_bits(d, img_w as int, stride as int, coded.spec_slots(), *rect, coder_of(rice_coded)),
        ) ==> {
            &&& r is Ok
            &&& final(reader).pos() == old(reader).pos() + block_bits(
                d,
                img_w as int,
                stride as int,
                coded.spec_slots(),
                *rect,
                coder_of(rice_coded),
            ).len()
            &&& forall|i: int|
                0 <= i < d.len() ==> #[trigger] final(data)@[i] == if in_rect(
                    i,
                    img_w as int,
                    stride as int,
                    *rect,
                ) && predict::is_coded(coded.spec_slots(), i, stride as int) {
                    d[i]
                } else {
                    old(data)@[i]
                }
        },
{
    let ghost slots = coded.spec_slots();
    let ghost s0 = reader.bits();
    let ghost p0 = reader.pos();
    let ghost coder = coder_of(rice_coded);
    let ghost wi = img_w as int;
    let ghost si = stride as int;
    let ghost heads = heads_bits(d, wi, si, slots, *rect, coder, slots.len());
    let ghost pays = payloads_bits(d, wi, si, slots, *rect, coder, slots.len());
    let ghost good = d.len() == old(data)@.len() && bits_at(s0, p0, heads + pays);
    proof {
        reader.lemma_bits_len();
        coded.lemma_wf();
        if good {
            lemma_bits_at_split(s0, p0, heads, pays);
        }
        let total = old(data)@.len();
        assert(index_of(wi, si, 0, rect.y + rect.h, 0) <= total) by (nonlinear_arith)
            requires
                wi == img_w,
                si == stride,
                rect.y + rect.h <= gh,
                total == img_w * gh * stride,
                stride > 0,
                img_w > 0,
        ;
    }
    let n = coded.len();
    let mut bases: Vec<u8> = Vec::new();
    let mut params: Vec<u32> = Vec::new();
    let mut slot: usize = 0;
    while slot < n
        invariant
            reader.wf(),
            reader.bits() == s0,
            s0 == old(reader).bits(),
            p0 == old(reader).pos(),
            wi == img_w as int,
            si == stride as int,
            coder == coder_of(rice_coded),
            heads == heads_bits(d, wi, si, slots, *rect, coder, slots.len()),
            pays == payloads_bits(d, wi, si, slots, *rect, coder, slots.len()),
            good == (d.len() == old(data)@.len() && bits_at(s0, p0, heads + pays)),
            slots == coded.spec_slots(),
            n == slots.len(),
            slot <= n,
            bases@.len() == slot,
            params@.len() == slot,
            forall|k: int| 0 <= k < slot ==> #[trigger] params@[k] <= 9,
            forall|k: int| 0 <= k < slot ==> (!rice_coded ==> #[trigger] params@[k] <= 8),
            good ==> bits_at(s0, p0, heads),
            good ==> reader.pos() == p0 + heads_bits(d, wi, si, slots, *rect, coder, slot as nat).len(),
            good ==> forall|k: int|
                0 <= k < slot ==> #[trigger] bases@[k] == slot_base(d, wi, si, slots, *rect, k)
                    && params@[k] == block_param(coder, slot_residuals(d, wi, si, slots, *rect, k)),
        decreases n - slot,
    {
        let ghost pos = reader.pos();
        let ghost hb = heads_bits(d, wi, si, slots, *rect, coder, slot as nat);
        let ghost base_bits = bits_of(slot_base(d, wi, si, slots, *rect, slot as int) as nat, 8);
        let ghost param_bits = bits_of(
            block_param(coder, slot_residuals(d, wi, si, slots, *rect, slot as int)),
            4,
        );
        proof {
            if good {
                lemma_heads_prefix(d, wi, si, slots, *rect, coder, (slot + 1) as nat, n as nat);
                lemma_bits_at_prefix(
                    s0,
                    p0,
                    heads_bits(d, wi, si, slots, *rect, coder, (slot + 1) as nat),
                    heads,
                );
                lemma_bits_at_split(s0, p0, hb + base_bits, param_bits);
                lemma_bits_at_split(s0, p0, hb, base_bits);
                lemma_bits_of_len(slot_base(d, wi, si, slots, *rect, slot as int) as nat, 8);
                lemma_bits_of_len(
                    block_param(coder, slot_residuals(d, wi, si, slots, *rect, slot as int)),
                    4,
                );
                assert(heads_bits(d, wi, si, slots, *rect, coder, (slot + 1) as nat) == hb + base_bits
                    + param_bits);
                lemma_block_channel(coder, slot_samples(d, wi, si, slots, *rect, slot as int));
                lemma2_to64();
                lemma_field_reads(
                    s0,
                    pos,
                    slot_base(d, wi, si, slots, *rect, slot as int) as nat,
                    8,
                );
                lemma_field_reads(
                    s0,
                    pos + 8,
                    block_param(coder, slot_residuals(d, wi, si, slots, *rect, slot as int)),
                    4,
                );
            }
        }
        let base = match reader.read(8) {
            Ok(b) => b,
            Err(e) => {
                return Err(e);
            },
        };
        let param = match reader.read(WIDTH_CODE_BITS) {
            Ok(p) => p,
            Err(e) => {
                return Err(e);
            },
        };
        if rice_coded {
            // Rejects the reserved modes here; the parameter is derived below.
            match rice::parameter_for(param) {
                Ok(_) => {},
                Err(e) => {
                    return Err(e);
                },
            }
        } else if param > 8 {
            return Err(BrpError::InvalidWidthCode(param as u8));
        }
        let ghost bases0 = bases@;
        let ghost params0 = params@;
        bases.push(base as u8);
        params.push(param);
        proof {
            if good {
                assert forall|k: int| 0 <= k < slot + 1 implies #[trigger] bases@[k] == slot_base(
                    d,
                    wi,
                    si,
                    slots,
                    *rect,
                    k,
                ) && params@[k] == block_param(coder, slot_residuals(d, wi, si, slots, *rect, k)) by {
                    if k < slot {
                        assert(bases@[k] == bases0[k]);
                        assert(params@[k] == params0[k]);
                    }
                }
            }
        }
        slot = slot + 1;
    }
    let len = data.len();
    let mut s: usize = 0;
    while s < n
        invariant
            reader.wf(),
            reader.bits() == s0,
            s0 == old(reader).bits(),
            p0 == old(reader).pos(),
            wi == img_w as int,
            si == stride as int,
            coder == coder_of(rice_coded),
            heads == heads_bits(d, wi, si, slots, *rect, coder, slots.len()),
            pays == payloads_bits(d, wi, si, slots, *rect, coder, slots.len()),
            good == (d.len() == old(data)@.len() && bits_at(s0, p0, heads + pays)),
            coded.wf(),
            slots == coded.spec_slots(),
            n == slots.len(),
            n <= 4,
            forall|k: int| 0 <= k < n ==> slots[k] < stride,
            s <= n,
            bases@.len() == n,
            params@.len() == n,
            forall|k: int| 0 <= k < n ==> #[trigger] params@[k] <= 9,
            forall|k: int| 0 <= k < n ==> (!rice_coded ==> #[trigger] params@[k] <= 8),
            img_w > 0,
            stride > 0,
            rect.x + rect.w <= img_w,
            rect.y + rect.h <= gh,
            rect.y + rect.h <= u32::MAX,
            index_of(wi, si, 0, rect.y + rect.h, 0) <= len,
            len == img_w * gh * stride,
            data@.len() == len,
            len == old(data)@.len(),
            good ==> bits_at(s0, p0 + heads.len(), pays),
            good ==> reader.pos() == p0 + heads.len() + payloads_bits(
                d,
                wi,
                si,
                slots,
                *rect,
                coder,
                s as nat,
            ).len(),
            good ==> forall|k: int|
                0 <= k < n ==> #[trigger] bases@[k] == slot_base(d, wi, si, slots, *rect, k)
                    && params@[k] == block_param(coder, slot_residuals(d, wi, si, slots, *rect, k)),
            good ==> forall|i: int|
                0 <= i < len ==> #[trigger] data@[i] == if block_written(
                    i,
                    wi,
                    si,
                    *rect,
                    slots,
                    s as int,
                    -1,
                    0,
                    0,
                ) {
                    d[i]
                } else {
                    old(data)@[i]
                },
        decreases n - s,
    {
        let param = params[s];
        let base = bases[s];
        let channel = coded.channel(s);
        let ghost values = slot_samples(d, wi, si, slots, *rect, s as int);
        let ghost res = slot_residuals(d, wi, si, slots, *rect, s as int);
        let ghost q0 = p0 + heads.len() + payloads_bits(d, wi, si, slots, *rect, coder, s as nat).len();
        proof {
            if good {
                lemma_payloads_prefix(d, wi, si, slots, *rect, coder, (s + 1) as nat, n as nat);
                lemma_bits_at_prefix(
                    s0,
                    p0 + heads.len(),
                    payloads_bits(d, wi, si, slots, *rect, coder, (s + 1) as nat),
                    pays,
                );
                lemma_bits_at_split(
                    s0,
                    p0 + heads.len(),
                    payloads_bits(d, wi, si, slots, *rect, coder, s as nat),
                    payload_bits(coder, res, param as nat),
                );
                lemma_block_channel(coder, values);
            }
        }
        // `None` means the block carries no payload: every residual in it is zero.
        let k: Option<u32> = if rice_coded {
            if param == 0 {
                None
            } else {
                Some(param - 1)
            }
        } else if param == 0 {
            None
        } else {
            Some(param)
        };
        let ghost mut consumed: Seq<u8> = Seq::empty();
        let mut row: u32 = 0;
        while row < rect.h
            invariant
                reader.wf(),
                reader.bits() == s0,
                s0 == old(reader).bits(),
                p0 == old(reader).pos(),
                wi == img_w as int,
                si == stride as int,
                coder == coder_of(rice_coded),
                heads == heads_bits(d, wi, si, slots, *rect, coder, slots.len()),
                pays == payloads_bits(d, wi, si, slots, *rect, coder, slots.len()),
                good == (d.len() == old(data)@.len() && bits_at(s0, p0, heads + pays)),
                slots == coded.spec_slots(),
                n == slots.len(),
                s < n,
                channel == slots[s as int],
                channel < stride,
                img_w > 0,
                stride > 0,
                rect.x + rect.w <= img_w,
                rect.y + rect.h <= gh,
                rect.y + rect.h <= u32::MAX,
                index_of(wi, si, 0, rect.y + rect.h, 0) <= len,
                len == img_w * gh * stride,
                data@.len() == len,
                len == old(data)@.len(),
                row <= rect.h,
                k matches Some(kk) ==> kk <= 8,
                rice_coded ==> k == (if param == 0 {
                    None::<u32>
                } else {
                    Some((param - 1) as u32)
                }),
                !rice_coded ==> k == (if param == 0 {
                    None::<u32>
                } else {
                    Some(param)
                }),
                good ==> base == slot_base(d, wi, si, slots, *rect, s as int),
                good ==> param == block_param(coder, res),
                good ==> res == rebase(values, base),
                good ==> values == block_values(d, wi, si, *rect, channel as int),
                good ==> bits_at(s0, q0, payload_bits(coder, res, param as nat)),
                good ==> consumed == rows_values(d, wi, si, *rect, channel as int, row as nat),
                good ==> reader.pos() == q0 + payload_bits(coder, rebase(consumed, base), param as nat).len(),
                good ==> forall|i: int|
                    0 <= i < len ==> #[trigger] data@[i] == if block_written(
                        i,
                        wi,
                        si,
                        *rect,
                        slots,
                        s as int,
                        channel as int,
                        row as int,
                        0,
                    ) {
                        d[i]
                    } else {
                        old(data)@[i]
                    },
            decreases rect.h - row,
        {
            let mut col: u32 = 0;
            while col < rect.w
                invariant
                    reader.wf(),
                    reader.bits() == s0,
                    s0 == old(reader).bits(),
                    p0 == old(reader).pos(),
                    wi == img_w as int,
                    si == stride as int,
                    coder == coder_of(rice_coded),
                    heads == heads_bits(d, wi, si, slots, *rect, coder, slots.len()),
                    pays == payloads_bits(d, wi, si, slots, *rect, coder, slots.len()),
                    good == (d.len() == old(data)@.len() && bits_at(s0, p0, heads + pays)),
                    slots == coded.spec_slots(),
                    n == slots.len(),
                    s < n,
                    channel == slots[s as int],
                    channel < stride,
                    img_w > 0,
                    stride > 0,
                    rect.x + rect.w <= img_w,
                    rect.y + rect.h <= gh,
                    rect.y + rect.h <= u32::MAX,
                    index_of(wi, si, 0, rect.y + rect.h, 0) <= len,
                    len == img_w * gh * stride,
                    data@.len() == len,
                    len == old(data)@.len(),
                    row < rect.h,
                    col <= rect.w,
                    k matches Some(kk) ==> kk <= 8,
                    rice_coded ==> k == (if param == 0 {
                        None::<u32>
                    } else {
                        Some((param - 1) as u32)
                    }),
                    !rice_coded ==> k == (if param == 0 {
                        None::<u32>
                    } else {
                        Some(param)
                    }),
                    good ==> base == slot_base(d, wi, si, slots, *rect, s as int),
                    good ==> param == block_param(coder, res),
                    good ==> res == rebase(values, base),
                    good ==> values == block_values(d, wi, si, *rect, channel as int),
                    good ==> bits_at(s0, q0, payload_bits(coder, res, param as nat)),
                    good ==> consumed == rows_values(d, wi, si, *rect, channel as int, row as nat)
                        + row_values(d, wi, si, *rect, channel as int, row as int).take(col as int),
                    good ==> reader.pos() == q0 + payload_bits(
                        coder,
                        rebase(consumed, base),
                        param as nat,
                    ).len(),
                    good ==> forall|i: int|
                        0 <= i < len ==> #[trigger] data@[i] == if block_written(
                            i,
                            wi,
                            si,
                            *rect,
                            slots,
                            s as int,
                            channel as int,
                            row as int,
                            col as int,
                        ) {
                            d[i]
                        } else {
                            old(data)@[i]
                        },
                decreases rect.w - col,
            {
                proof {
                    lemma_index(
                        img_w as int,
                        (rect.y + rect.h) as int,
                        stride as int,
                        (rect.x + col) as int,
                        (rect.y + row) as int,
                        channel as int,
                    );
                    assert(img_w * (rect.y + rect.h) * stride == index_of(
                        img_w as int,
                        stride as int,
                        0,
                        rect.y + rect.h,
                        0,
                    )) by (nonlinear_arith);
                }
                let i = sample_index(img_w, stride, rect.x + col, rect.y + row, channel);
                let ghost x = d[i as int];
                let ghost t = consumed.len() as int;
                let ghost pos = reader.pos();
                proof {
                    if good {
                        lemma_next_value(d, wi, si, *rect, channel as int, row as nat, col as nat);
                        let next = consumed.push(x);
                        assert(values[t] == x) by {
                            assert(values.subrange(0, next.len() as int)[t] == values[t]);
                        }
                        lemma_rebase_prefix(next, values, base);
                        assert(rebase(next, base) =~= rebase(consumed, base).push(res[t]));
                        lemma_payload_prefix(coder, rebase(next, base), res, param as nat);
                        lemma_payload_push(coder, rebase(consumed, base), res[t], param as nat);
                        lemma_bits_at_prefix(
                            s0,
                            q0,
                            payload_bits(coder, rebase(next, base), param as nat),
                            payload_bits(coder, res, param as nat),
                        );
                        lemma_bits_at_split(
                            s0,
                            q0,
                            payload_bits(coder, rebase(consumed, base), param as nat),
                            value_bits(coder, res[t], param as nat),
                        );
                        assert(t < values.len());
                        lemma_block_channel(coder, values);
                        assert(res[t] + base == values[t]);
                        if param > 0 {
                            if rice_coded {
                                rice::lemma_rice_round_trip(s0, pos, res[t] as nat, (param - 1) as nat);
                            } else {
                                lemma_bits_of_len(res[t] as nat, param as nat);
                                lemma_field_reads(s0, pos, res[t] as nat, param as nat);
                            }
                        } else {
                            assert(res[t] == 0);
                            assert(value_bits(coder, res[t], param as nat) =~= Seq::<bool>::empty());
                        }
                    }
                }
                match k {
                    None => {
                        data.set(i, base);
                    },
                    Some(kk) => {
                        let residual = if rice_coded {
                            match rice::read(reader, kk) {
                                Ok(v) => v,
                                Err(e) => {
                                    return Err(e);
                                },
                            }
                        } else {
                            match reader.read(kk) {
                                Ok(v) => v,
                                Err(e) => {
                                    return Err(e);
                                },
                            }
                        };
                        // Wraps rather than erroring.
                        data.set(i, base.wrapping_add(residual as u8));
                    },
                }
                proof {
                    if good {
                        consumed = consumed.push(x);
                        assert(data@[i as int] == x);
                        let wr = |j: int| block_written(j, wi, si, *rect, slots, s as int, channel as int, row as int, col as int);
                        assert forall|j: int| 0 <= j < len implies #[trigger] data@[j] == if block_written(
                            j,
                            wi,
                            si,
                            *rect,
                            slots,
                            s as int,
                            channel as int,
                            row as int,
                            (col + 1) as int,
                        ) {
                            d[j]
                        } else {
                            old(data)@[j]
                        } by {
                            lemma_index_inverse(wi, gh as int, si, j);
                            if j != i as int {
                                assert(!(col_of(j, wi, si) == rect.x + col && row_of(j, wi, si)
                                    == rect.y + row && j % si == channel));
                            }
                        }
                        assert(consumed =~= rows_values(d, wi, si, *rect, channel as int, row as nat)
                            + row_values(d, wi, si, *rect, channel as int, row as int).take(
                            col + 1 as int,
                        ));
                    }
                }
                col = col + 1;
            }
            proof {
                if good {
                    assert(row_values(d, wi, si, *rect, channel as int, row as int).take(rect.w as int)
                        =~= row_values(d, wi, si, *rect, channel as int, row as int));
                    assert(consumed =~= rows_values(d, wi, si, *rect, channel as int, (row + 1) as nat));
                    assert forall|j: int| 0 <= j < len implies #[trigger] data@[j] == if block_written(
                        j,
                        wi,
                        si,
                        *rect,
                        slots,
                        s as int,
                        channel as int,
                        (row + 1) as int,
                        0,
                    ) {
                        d[j]
                    } else {
                        old(data)@[j]
                    } by {
                        lemma_index_inverse(wi, gh as int, si, j);
                    }
                }
            }
            row = row + 1;
        }
        proof {
            if good {
                assert(consumed == values);
                assert(slots.take(s + 1) =~= slots.take(s as int).push(slots[s as int]));
                assert forall|j: int| 0 <= j < len implies #[trigger] data@[j] == if block_written(
                    j,
                    wi,
                    si,
                    *rect,
                    slots,
                    (s + 1) as int,
                    -1,
                    0,
                    0,
                ) {
                    d[j]
                } else {
                    old(data)@[j]
                } by {
                    lemma_index_inverse(wi, gh as int, si, j);
                    lemma_take_contains(slots, s as int, (j % si) as usize);
                }
            }
        }
        s = s + 1;
    }
    proof {
        if good {
            assert(slots.take(n as int) =~= slots);
            assert(heads + pays == block_bits(d, wi, si, slots, *rect, coder));
        }
    }
    Ok(())
}

/// Sample `c` of pixel `(x, y)` is the same in `a` and `b`.
pub open spec fn agrees_at(a: Seq<u8>, b: Seq<u8>, w: int, s: int, x: int, y: int, c: int) -> bool {
    a[index_of(w, s, x, y, c)] == b[index_of(w, s, x, y, c)]
}

/// Sample `j` is one of the `n` samples of channel `c` on row `y` from column `x0`.
pub open spec fn in_run(j: int, w: int, s: int, x0: int, y: int, c: int, n: int) -> bool {
    j % s == c && row_of(j, w, s) == y && x0 <= col_of(j, w, s) < x0 + n
}

/// The neighbours a context reads lie one column left, one row up, or both; where they agree
/// between two planes, so does the context.
proof fn lemma_ctx_agrees(a: Seq<u8>, b: Seq<u8>, w: int, h: int, s: int, x: int, y: int, c: int)
    requires
        0 <= x < w,
        0 <= y < h,
        0 <= c < s,
        w * h * s <= a.len(),
        w * h * s <= b.len(),
        y > 0 ==> agrees_at(a, b, w, s, x, y - 1, c),
        x > 0 ==> agrees_at(a, b, w, s, x - 1, y, c),
        x > 0 && y > 0 ==> agrees_at(a, b, w, s, x - 1, y - 1, c),
    ensures
        crate::ctx_stream::ctx_of(a, index_of(w, s, x, y, c), w, s) == crate::ctx_stream::ctx_of(
            b,
            index_of(w, s, x, y, c),
            w,
            s,
        ),
{
    let i = index_of(w, s, x, y, c);
    lemma_index(w, h, s, x, y, c);
    if y > 0 {
        assert(i - w * s == index_of(w, s, x, y - 1, c)) by (nonlinear_arith)
            requires
                i == (y * w + x) * s + c,
        ;
    }
    if x > 0 {
        assert(i - s == index_of(w, s, x - 1, y, c)) by (nonlinear_arith)
            requires
                i == (y * w + x) * s + c,
        ;
    }
    if x > 0 && y > 0 {
        assert(i - w * s - s == index_of(w, s, x - 1, y - 1, c)) by (nonlinear_arith)
            requires
                i == (y * w + x) * s + c,
        ;
    }
}

/// Reads `n` context-coded samples of channel `channel` on row `y`, from column `x0`.
///
/// Where the stream holds them as the encoder writes them for a plane `d`, and the neighbours
/// they read already agree with `d`, this fills them in from `d`.
fn read_ctx_cols(
    reader: &mut BitReader,
    model: &mut ContextModel,
    data: &mut Vec<u8>,
    plane: &Plane,
    x0: u32,
    y: u32,
    channel: usize,
    n: u32,
    Ghost(h): Ghost<u32>,
    Ghost(d): Ghost<Seq<u8>>,
    Ghost(good): Ghost<bool>,
) -> (r: Result<(), BrpError>)
    requires
        old(reader).wf(),
        crate::context::ContextModel::within(*old(model)),
        plane.wf(),
        channel < plane.stride,
        x0 + n <= plane.width,
        y < h,
        index_of(plane.width as int, plane.stride as int, 0, h as int, 0) <= old(data)@.len(),
        old(data)@.len() <= usize::MAX,
        good ==> {
            let w = plane.width as int;
            let si = plane.stride as int;
            let c = channel as int;
            let ya = y - 1;
            let xl = x0 - 1;
            &&& d.len() == old(data)@.len()
            &&& bits_at(
                old(reader).bits(),
                old(reader).pos(),
                crate::ctx_stream::cols_code(old(model).state(), d, w, si, x0 as int, y as int, c, n as nat).0,
            )
            &&& (x0 > 0 && n > 0 ==> agrees_at(old(data)@, d, w, si, xl, y as int, c))
            &&& (y > 0 ==> forall|x: int|
                xl <= x < x0 + n && x >= 0 ==> #[trigger] agrees_at(old(data)@, d, w, si, x, ya, c))
        },
    ensures
        final(reader).wf(),
        final(reader).bits() == old(reader).bits(),
        crate::context::ContextModel::within(*final(model)),
        final(data)@.len() == old(data)@.len(),
        forall|j: int|
            0 <= j < old(data)@.len() && !in_run(
                j,
                plane.width as int,
                plane.stride as int,
                x0 as int,
                y as int,
                channel as int,
                n as int,
            ) ==> #[trigger] final(data)@[j] == old(data)@[j],
        good ==> {
            let cc = crate::ctx_stream::cols_code(
                old(model).state(),
                d,
                plane.width as int,
                plane.stride as int,
                x0 as int,
                y as int,
                channel as int,
                n as nat,
            );
            &&& r is Ok
            &&& final(reader).pos() == old(reader).pos() + cc.0.len()
            &&& final(model).state() == cc.1
            &&& forall|x: int|
                x0 <= x < x0 + n ==> #[trigger] agrees_at(
                    final(data)@,
                    d,
                    plane.width as int,
                    plane.stride as int,
                    x,
                    y as int,
                    channel as int,
                )
        },
{
    let ghost w = plane.width as int;
    let ghost si = plane.stride as int;
    let ghost c = channel as int;
    let ghost st0 = model.state();
    let ghost s0 = reader.bits();
    let ghost p0 = reader.pos();
    let ghost start = data@;
    let ghost all = crate::ctx_stream::cols_code(st0, d, w, si, x0 as int, y as int, c, n as nat).0;
    let ghost ya = y - 1;
    let ghost xl = x0 - 1;
    proof {
        assert(w * h * si == index_of(w, si, 0, h as int, 0)) by (nonlinear_arith);
    }
    let mut col: u32 = 0;
    while col < n
        invariant
            reader.wf(),
            reader.bits() == s0,
            s0 == old(reader).bits(),
            crate::context::ContextModel::within(*model),
            plane.wf(),
            w == plane.width,
            si == plane.stride,
            c == channel,
            channel < plane.stride,
            x0 + n <= plane.width,
            y < h,
            w * h * si <= start.len(),
            index_of(w, si, 0, h as int, 0) <= start.len(),
            start.len() <= usize::MAX,
            start == old(data)@,
            data@.len() == start.len(),
            ya == y - 1,
            xl == x0 - 1,
            all == crate::ctx_stream::cols_code(st0, d, w, si, x0 as int, y as int, c, n as nat).0,
            col <= n,
            forall|j: int|
                0 <= j < start.len() && !in_run(j, w, si, x0 as int, y as int, c, col as int)
                    ==> #[trigger] data@[j] == start[j],
            good ==> {
                &&& d.len() == start.len()
                &&& bits_at(s0, p0, all)
                &&& (x0 > 0 && n > 0 ==> agrees_at(start, d, w, si, xl, y as int, c))
                &&& (y > 0 ==> forall|x: int|
                    xl <= x < x0 + n && x >= 0 ==> #[trigger] agrees_at(start, d, w, si, x, ya, c))
                &&& reader.pos() == p0 + crate::ctx_stream::cols_code(st0, d, w, si, x0 as int, y as int, c, col as nat).0.len()
                &&& model.state() == crate::ctx_stream::cols_code(st0, d, w, si, x0 as int, y as int, c, col as nat).1
                &&& forall|x: int| x0 <= x < x0 + col ==> #[trigger] agrees_at(data@, d, w, si, x, y as int, c)
            },
        decreases n - col,
    {
        let x = x0 + col;
        proof {
            lemma_index(w, h as int, si, x as int, y as int, c);
        }
        let i = sample_index(plane.width, plane.stride, x, y, channel);
        let context = plane.context(data.as_slice(), x, y, channel);
        let k = model.parameter(context);
        let ghost pre = crate::ctx_stream::cols_code(st0, d, w, si, x0 as int, y as int, c, col as nat);
        proof {
            if good {
                // The neighbours this sample reads are already d's.
                if y > 0 {
                    assert(agrees_at(start, d, w, si, x as int, ya, c));
                    lemma_index(w, h as int, si, x as int, y - 1, c);
                    assert(!in_run(index_of(w, si, x as int, y - 1, c), w, si, x0 as int, y as int, c, col as int));
                    assert(agrees_at(data@, d, w, si, x as int, y - 1, c));
                }
                if x > 0 {
                    if col > 0 {
                        assert(agrees_at(data@, d, w, si, x - 1, y as int, c));
                    } else {
                        lemma_index(w, h as int, si, x - 1, y as int, c);
                        assert(!in_run(index_of(w, si, x - 1, y as int, c), w, si, x0 as int, y as int, c, col as int));
                    }
                    if y > 0 {
                        assert(agrees_at(start, d, w, si, x - 1, ya, c));
                        lemma_index(w, h as int, si, x - 1, y - 1, c);
                        assert(!in_run(index_of(w, si, x - 1, y - 1, c), w, si, x0 as int, y as int, c, col as int));
                    }
                }
                lemma_ctx_agrees(data@, d, w, h as int, si, x as int, y as int, c);
                crate::ctx_stream::lemma_cols_code_step(st0, d, w, si, x0 as int, y as int, c, col as nat, n as nat);
                assert(index_of(w, si, x0 + col, y as int, c) == i);
                assert(crate::ctx_stream::cols_code(st0, d, w, si, x0 as int, y as int, c, (col + 1) as nat).0
                    == pre.0 + crate::ctx_stream::sample_code(pre.1, d, i as int, w, si).0);
                lemma_bits_at_prefix(s0, p0, pre.0 + crate::ctx_stream::sample_code(pre.1, d, i as int, w, si).0, all);
                lemma_bits_at_split(s0, p0, pre.0, crate::ctx_stream::sample_code(pre.1, d, i as int, w, si).0);
                crate::rice::lemma_rice_round_trip(s0, reader.pos(), d[i as int] as nat, k as nat);
            }
        }
        let v = match rice::read(reader, k) {
            Ok(v) => v,
            Err(e) => {
                return Err(e);
            },
        };
        proof {
            assert(model.within_limits(context as int));
        }
        model.update(context, v);
        let ghost before = data@;
        data.set(i, v as u8);
        proof {
            assert forall|j: int|
                0 <= j < start.len() && !in_run(j, w, si, x0 as int, y as int, c, col + 1)
                    implies #[trigger] data@[j] == start[j] by {
                if j == i as int {
                    lemma_index(w, h as int, si, x as int, y as int, c);
                }
            }
            if good {
                assert(v == d[i as int]);
                assert forall|xx: int| x0 <= xx < x0 + col + 1 implies #[trigger] agrees_at(data@, d, w, si, xx, y as int, c) by {
                    if xx < x {
                        lemma_index(w, h as int, si, xx, y as int, c);
                        lemma_index(w, h as int, si, x as int, y as int, c);
                        assert(index_of(w, si, xx, y as int, c) != i);
                        assert(agrees_at(before, d, w, si, xx, y as int, c));
                    } else {
                        assert(index_of(w, si, xx, y as int, c) == i);
                    }
                }
            }
        }
        col = col + 1;
    }
    Ok(())
}

/// Sample `j` is in channel `c` of block `r`.
pub open spec fn in_rect_channel(j: int, w: int, s: int, r: BlockRect, c: int) -> bool {
    j % s == c && in_rect(j, w, s, r)
}

/// The samples a block-channel's contexts read from outside it: the column to its left and the
/// row above it, the corner included.
pub open spec fn frame_agrees(a: Seq<u8>, b: Seq<u8>, w: int, s: int, r: BlockRect, c: int) -> bool {
    let xl = r.x - 1;
    let ya = r.y - 1;
    &&& (r.x > 0 ==> forall|y: int| r.y <= y < r.y + r.h ==> #[trigger] agrees_at(a, b, w, s, xl, y, c))
    &&& (r.y > 0 ==> forall|x: int|
        xl <= x < r.x + r.w && x >= 0 ==> #[trigger] agrees_at(a, b, w, s, x, ya, c))
}

/// Reads every context-coded sample of channel `channel` within block `rect`, row by row.
fn read_ctx_rows(
    reader: &mut BitReader,
    model: &mut ContextModel,
    data: &mut Vec<u8>,
    plane: &Plane,
    rect: &BlockRect,
    channel: usize,
    Ghost(h): Ghost<u32>,
    Ghost(d): Ghost<Seq<u8>>,
    Ghost(good): Ghost<bool>,
) -> (r: Result<(), BrpError>)
    requires
        old(reader).wf(),
        crate::context::ContextModel::within(*old(model)),
        plane.wf(),
        channel < plane.stride,
        rect.x + rect.w <= plane.width,
        rect.y + rect.h <= h,
        index_of(plane.width as int, plane.stride as int, 0, h as int, 0) <= old(data)@.len(),
        old(data)@.len() <= usize::MAX,
        good ==> {
            &&& d.len() == old(data)@.len()
            &&& bits_at(
                old(reader).bits(),
                old(reader).pos(),
                crate::ctx_stream::rows_code(
                    old(model).state(),
                    d,
                    plane.width as int,
                    plane.stride as int,
                    *rect,
                    channel as int,
                    rect.h as nat,
                ).0,
            )
            &&& frame_agrees(old(data)@, d, plane.width as int, plane.stride as int, *rect, channel as int)
        },
    ensures
        final(reader).wf(),
        final(reader).bits() == old(reader).bits(),
        crate::context::ContextModel::within(*final(model)),
        final(data)@.len() == old(data)@.len(),
        forall|j: int|
            0 <= j < old(data)@.len() && !in_rect_channel(
                j,
                plane.width as int,
                plane.stride as int,
                *rect,
                channel as int,
            ) ==> #[trigger] final(data)@[j] == old(data)@[j],
        good ==> {
            let rc = crate::ctx_stream::rows_code(
                old(model).state(),
                d,
                plane.width as int,
                plane.stride as int,
                *rect,
                channel as int,
                rect.h as nat,
            );
            &&& r is Ok
            &&& final(reader).pos() == old(reader).pos() + rc.0.len()
            &&& final(model).state() == rc.1
            &&& forall|x: int, y: int|
                rect.x <= x < rect.x + rect.w && rect.y <= y < rect.y + rect.h ==> #[trigger] agrees_at(
                    final(data)@,
                    d,
                    plane.width as int,
                    plane.stride as int,
                    x,
                    y,
                    channel as int,
                )
        },
{
    let ghost w = plane.width as int;
    let ghost si = plane.stride as int;
    let ghost c = channel as int;
    let ghost st0 = model.state();
    let ghost s0 = reader.bits();
    let ghost p0 = reader.pos();
    let ghost start = data@;
    let ghost all = crate::ctx_stream::rows_code(st0, d, w, si, *rect, c, rect.h as nat).0;
    let ghost r = *rect;
    proof {
        assert(w * h * si == index_of(w, si, 0, h as int, 0)) by (nonlinear_arith);
    }
    let mut row: u32 = 0;
    while row < rect.h
        invariant
            reader.wf(),
            reader.bits() == s0,
            s0 == old(reader).bits(),
            crate::context::ContextModel::within(*model),
            plane.wf(),
            w == plane.width,
            si == plane.stride,
            c == channel,
            r == *rect,
            channel < plane.stride,
            rect.x + rect.w <= plane.width,
            rect.y + rect.h <= h,
            w * h * si <= start.len(),
            index_of(w, si, 0, h as int, 0) <= start.len(),
            start.len() <= usize::MAX,
            start == old(data)@,
            data@.len() == start.len(),
            all == crate::ctx_stream::rows_code(st0, d, w, si, r, c, r.h as nat).0,
            row <= rect.h,
            forall|j: int|
                0 <= j < start.len() && !in_rect_channel(j, w, si, r, c) ==> #[trigger] data@[j] == start[j],
            good ==> {
                &&& d.len() == start.len()
                &&& bits_at(s0, p0, all)
                &&& frame_agrees(start, d, w, si, r, c)
                &&& reader.pos() == p0 + crate::ctx_stream::rows_code(st0, d, w, si, r, c, row as nat).0.len()
                &&& model.state() == crate::ctx_stream::rows_code(st0, d, w, si, r, c, row as nat).1
                &&& forall|x: int, y: int|
                    r.x <= x < r.x + r.w && r.y <= y < r.y + row ==> #[trigger] agrees_at(data@, d, w, si, x, y, c)
            },
        decreases rect.h - row,
    {
        let y = rect.y + row;
        let ghost before = data@;
        let ghost pre = crate::ctx_stream::rows_code(st0, d, w, si, r, c, row as nat);
        let ghost ya = y - 1;
        let ghost xl = rect.x - 1;
        proof {
            if good {
                crate::ctx_stream::lemma_rows_code_step(st0, d, w, si, r, c, row as nat, r.h as nat);
                lemma_bits_at_prefix(s0, p0, crate::ctx_stream::rows_code(st0, d, w, si, r, c, (row + 1) as nat).0, all);
                lemma_bits_at_split(
                    s0,
                    p0,
                    pre.0,
                    crate::ctx_stream::cols_code(pre.1, d, w, si, r.x as int, y as int, c, r.w as nat).0,
                );
                if rect.x > 0 && rect.w > 0 {
                    assert(agrees_at(start, d, w, si, xl, y as int, c));
                    lemma_index(w, h as int, si, xl, y as int, c);
                    assert(!in_rect_channel(index_of(w, si, xl, y as int, c), w, si, r, c));
                }
                if y > 0 {
                    assert forall|x: int| xl <= x < rect.x + rect.w && x >= 0 implies #[trigger] agrees_at(
                        before,
                        d,
                        w,
                        si,
                        x,
                        ya,
                        c,
                    ) by {
                        if row > 0 && x >= rect.x {
                            assert(agrees_at(before, d, w, si, x, ya, c));
                        } else {
                            if row > 0 {
                                assert(agrees_at(start, d, w, si, xl, ya, c));
                            } else {
                                assert(agrees_at(start, d, w, si, x, ya, c));
                            }
                            lemma_index(w, h as int, si, x, ya, c);
                            assert(!in_rect_channel(index_of(w, si, x, ya, c), w, si, r, c));
                        }
                    }
                }
            }
        }
        match read_ctx_cols(reader, model, data, plane, rect.x, y, channel, rect.w, Ghost(h), Ghost(d), Ghost(good)) {
            Ok(()) => {},
            Err(e) => {
                proof {
                    assert forall|j: int|
                        0 <= j < start.len() && !in_rect_channel(j, w, si, r, c) implies #[trigger] data@[j]
                            == start[j] by {
                        assert(data@[j] == before[j]);
                    }
                }
                return Err(e);
            },
        }
        proof {
            assert forall|j: int|
                0 <= j < start.len() && !in_rect_channel(j, w, si, r, c) implies #[trigger] data@[j]
                    == start[j] by {
                assert(data@[j] == before[j]);
            }
            if good {
                assert forall|x: int, yy: int|
                    r.x <= x < r.x + r.w && r.y <= yy < r.y + row + 1 implies #[trigger] agrees_at(
                        data@,
                        d,
                        w,
                        si,
                        x,
                        yy,
                        c,
                    ) by {
                    if yy < y {
                        assert(agrees_at(before, d, w, si, x, yy, c));
                        lemma_index(w, h as int, si, x, yy, c);
                        assert(!in_run(index_of(w, si, x, yy, c), w, si, r.x as int, y as int, c, r.w as int));
                    }
                }
            }
        }
        row = row + 1;
    }
    Ok(())
}

/// Sets every sample of channel `channel` within block `rect` to zero.
fn clear_rect_channel(data: &mut Vec<u8>, plane: &Plane, rect: &BlockRect, channel: usize, Ghost(h): Ghost<u32>)
    requires
        plane.wf(),
        channel < plane.stride,
        rect.x + rect.w <= plane.width,
        rect.y + rect.h <= h,
        index_of(plane.width as int, plane.stride as int, 0, h as int, 0) <= old(data)@.len(),
        old(data)@.len() <= usize::MAX,
    ensures
        final(data)@.len() == old(data)@.len(),
        forall|j: int|
            0 <= j < old(data)@.len() && !in_rect_channel(
                j,
                plane.width as int,
                plane.stride as int,
                *rect,
                channel as int,
            ) ==> #[trigger] final(data)@[j] == old(data)@[j],
        forall|x: int, y: int|
            rect.x <= x < rect.x + rect.w && rect.y <= y < rect.y + rect.h ==> #[trigger] final(data)@[index_of(
                plane.width as int,
                plane.stride as int,
                x,
                y,
                channel as int,
            )] == 0,
{
    let ghost w = plane.width as int;
    let ghost si = plane.stride as int;
    let ghost c = channel as int;
    let ghost start = data@;
    let ghost r = *rect;
    proof {
        assert(w * h * si == index_of(w, si, 0, h as int, 0)) by (nonlinear_arith);
    }
    let mut row: u32 = 0;
    while row < rect.h
        invariant
            plane.wf(),
            w == plane.width,
            si == plane.stride,
            c == channel,
            r == *rect,
            channel < plane.stride,
            rect.x + rect.w <= plane.width,
            rect.y + rect.h <= h,
            w * h * si <= start.len(),
            start.len() <= usize::MAX,
            start == old(data)@,
            data@.len() == start.len(),
            row <= rect.h,
            forall|j: int|
                0 <= j < start.len() && !in_rect_channel(j, w, si, r, c) ==> #[trigger] data@[j] == start[j],
            forall|x: int, y: int|
                r.x <= x < r.x + r.w && r.y <= y < r.y + row ==> #[trigger] data@[index_of(w, si, x, y, c)] == 0,
        decreases rect.h - row,
    {
        let y = rect.y + row;
        let mut col: u32 = 0;
        while col < rect.w
            invariant
                plane.wf(),
                w == plane.width,
                si == plane.stride,
                c == channel,
                r == *rect,
                channel < plane.stride,
                rect.x + rect.w <= plane.width,
                rect.y + rect.h <= h,
                y == rect.y + row,
                row < rect.h,
                w * h * si <= start.len(),
                start.len() <= usize::MAX,
                start == old(data)@,
                data@.len() == start.len(),
                col <= rect.w,
                forall|j: int|
                    0 <= j < start.len() && !in_rect_channel(j, w, si, r, c) ==> #[trigger] data@[j] == start[j],
                forall|x: int, yy: int|
                    r.x <= x < r.x + r.w && r.y <= yy < r.y + row ==> #[trigger] data@[index_of(w, si, x, yy, c)] == 0,
                forall|x: int| r.x <= x < r.x + col ==> #[trigger] data@[index_of(w, si, x, y as int, c)] == 0,
            decreases rect.w - col,
        {
            let x = rect.x + col;
            proof {
                lemma_index(w, h as int, si, x as int, y as int, c);
            }
            let i = sample_index(plane.width, plane.stride, x, y, channel);
            let ghost before = data@;
            data.set(i, 0);
            proof {
                assert(in_rect_channel(i as int, w, si, r, c));
                assert forall|xx: int, yy: int|
                    r.x <= xx < r.x + r.w && r.y <= yy < r.y + row implies #[trigger] data@[index_of(w, si, xx, yy, c)] == 0 by {
                    lemma_index(w, h as int, si, xx, yy, c);
                    assert(before[index_of(w, si, xx, yy, c)] == 0);
                }
                assert forall|xx: int| r.x <= xx < r.x + col + 1 implies #[trigger] data@[index_of(w, si, xx, y as int, c)] == 0 by {
                    lemma_index(w, h as int, si, xx, y as int, c);
                    if xx < x {
                        assert(before[index_of(w, si, xx, y as int, c)] == 0);
                    }
                }
            }
            col = col + 1;
        }
        row = row + 1;
    }
}

/// Reads one block under the context coder: every zero flag, then every channel not flagged;
/// a flagged channel is zero throughout the block.
fn read_ctx_block(
    reader: &mut BitReader,
    model: &mut ContextModel,
    data: &mut Vec<u8>,
    plane: &Plane,
    coded: &CodedIndices,
    rect: &BlockRect,
    Ghost(h): Ghost<u32>,
    Ghost(d): Ghost<Seq<u8>>,
    Ghost(good): Ghost<bool>,
) -> (r: Result<(), BrpError>)
    requires
        old(reader).wf(),
        crate::context::ContextModel::within(*old(model)),
        plane.wf(),
        coded.wf(),
        forall|k: int| 0 <= k < coded.spec_slots().len() ==> coded.spec_slots()[k] < plane.stride,
        rect.x + rect.w <= plane.width,
        rect.y + rect.h <= h,
        index_of(plane.width as int, plane.stride as int, 0, h as int, 0) <= old(data)@.len(),
        old(data)@.len() <= usize::MAX,
        good ==> {
            &&& d.len() == old(data)@.len()
            &&& bits_at(
                old(reader).bits(),
                old(reader).pos(),
                crate::ctx_stream::block_code(
                    old(model).state(),
                    d,
                    plane.width as int,
                    plane.stride as int,
                    coded.spec_slots(),
                    *rect,
                ).0,
            )
            &&& forall|k: int|
                0 <= k < coded.spec_slots().len() ==> #[trigger] frame_agrees(
                    old(data)@,
                    d,
                    plane.width as int,
                    plane.stride as int,
                    *rect,
                    coded.spec_slots()[k] as int,
                )
        },
    ensures
        final(reader).wf(),
        final(reader).bits() == old(reader).bits(),
        crate::context::ContextModel::within(*final(model)),
        final(data)@.len() == old(data)@.len(),
        forall|j: int|
            0 <= j < old(data)@.len() && !(in_rect(j, plane.width as int, plane.stride as int, *rect)
                && coded.spec_slots().contains((j % (plane.stride as int)) as usize))
                ==> #[trigger] final(data)@[j] == old(data)@[j],
        good ==> {
            let bc = crate::ctx_stream::block_code(
                old(model).state(),
                d,
                plane.width as int,
                plane.stride as int,
                coded.spec_slots(),
                *rect,
            );
            &&& r is Ok
            &&& final(reader).pos() == old(reader).pos() + bc.0.len()
            &&& final(model).state() == bc.1
            &&& forall|k: int, x: int, y: int|
                0 <= k < coded.spec_slots().len() && rect.x <= x < rect.x + rect.w && rect.y <= y
                    < rect.y + rect.h ==> #[trigger] agrees_at(
                    final(data)@,
                    d,
                    plane.width as int,
                    plane.stride as int,
                    x,
                    y,
                    coded.spec_slots()[k] as int,
                )
        },
{
    let ghost w = plane.width as int;
    let ghost si = plane.stride as int;
    let ghost slots = coded.spec_slots();
    let ghost st0 = model.state();
    let ghost s0 = reader.bits();
    let ghost p0 = reader.pos();
    let ghost start = data@;
    let ghost r = *rect;
    let ghost all = crate::ctx_stream::block_code(st0, d, w, si, slots, r).0;
    let ghost fl = crate::ctx_stream::flags_bits(d, w, si, slots, r, slots.len());
    let ghost body = crate::ctx_stream::slots_code(st0, d, w, si, slots, r, slots.len()).0;
    let n = coded.len();
    proof {
        coded.lemma_wf();
        assert(w * h * si == index_of(w, si, 0, h as int, 0)) by (nonlinear_arith);
        if good {
            assert(all == fl + body);
            lemma_bits_at_split(s0, p0, fl, body);
        }
    }
    let mut zero: Vec<bool> = Vec::new();
    let mut k: usize = 0;
    while k < n
        invariant
            reader.wf(),
            reader.bits() == s0,
            s0 == old(reader).bits(),
            n == slots.len(),
            slots == coded.spec_slots(),
            w == plane.width,
            si == plane.stride,
            r == *rect,
            fl == crate::ctx_stream::flags_bits(d, w, si, slots, r, slots.len()),
            crate::context::ContextModel::within(*model),
            k <= n,
            zero@.len() == k,
            good ==> {
                &&& bits_at(s0, p0, fl)
                &&& reader.pos() == p0 + crate::ctx_stream::flags_bits(d, w, si, slots, r, k as nat).len()
                &&& forall|q: int| 0 <= q < k ==> #[trigger] zero@[q] == crate::ctx_stream::zero_at(d, w, si, slots, r, q)
            },
        decreases n - k,
    {
        let ghost flag: nat = if crate::ctx_stream::zero_at(d, w, si, slots, r, k as int) {
            1
        } else {
            0
        };
        proof {
            if good {
                crate::ctx_stream::lemma_flags_step(d, w, si, slots, r, k as nat, n as nat);
                lemma_bits_at_prefix(s0, p0, crate::ctx_stream::flags_bits(d, w, si, slots, r, (k + 1) as nat), fl);
                lemma_bits_at_split(
                    s0,
                    p0,
                    crate::ctx_stream::flags_bits(d, w, si, slots, r, k as nat),
                    bits_of(flag, 1),
                );
                lemma2_to64();
                lemma_field_reads(s0, reader.pos(), flag, 1);
                lemma_bits_of_len(flag, 1);
            }
        }
        let z = match reader.read(ZERO_BLOCK_BITS) {
            Ok(b) => b,
            Err(e) => {
                return Err(e);
            },
        };
        zero.push(z == 1);
        k = k + 1;
    }
    let ghost after_flags = reader.pos();
    let mut k: usize = 0;
    while k < n
        invariant
            reader.wf(),
            reader.bits() == s0,
            s0 == old(reader).bits(),
            crate::context::ContextModel::within(*model),
            plane.wf(),
            coded.wf(),
            ascending_below(slots, 4),
            n == slots.len(),
            slots == coded.spec_slots(),
            forall|q: int| 0 <= q < slots.len() ==> slots[q] < plane.stride,
            w == plane.width,
            si == plane.stride,
            r == *rect,
            rect.x + rect.w <= plane.width,
            rect.y + rect.h <= h,
            w * h * si <= start.len(),
            index_of(w, si, 0, h as int, 0) <= start.len(),
            start.len() <= usize::MAX,
            start == old(data)@,
            data@.len() == start.len(),
            body == crate::ctx_stream::slots_code(st0, d, w, si, slots, r, slots.len()).0,
            zero@.len() == n,
            k <= n,
            forall|j: int|
                0 <= j < start.len() && !(in_rect(j, w, si, r) && slots.take(k as int).contains((j % si) as usize))
                    ==> #[trigger] data@[j] == start[j],
            good ==> {
                &&& d.len() == start.len()
                &&& bits_at(s0, after_flags, body)
                &&& forall|q: int| 0 <= q < n ==> #[trigger] zero@[q] == crate::ctx_stream::zero_at(d, w, si, slots, r, q)
                &&& forall|q: int| 0 <= q < slots.len() ==> #[trigger] frame_agrees(start, d, w, si, r, slots[q] as int)
                &&& reader.pos() == after_flags + crate::ctx_stream::slots_code(st0, d, w, si, slots, r, k as nat).0.len()
                &&& model.state() == crate::ctx_stream::slots_code(st0, d, w, si, slots, r, k as nat).1
                &&& forall|q: int, x: int, y: int|
                    0 <= q < k && r.x <= x < r.x + r.w && r.y <= y < r.y + r.h ==> #[trigger] agrees_at(
                        data@,
                        d,
                        w,
                        si,
                        x,
                        y,
                        slots[q] as int,
                    )
            },
        decreases n - k,
    {
        let channel = coded.channel(k);
        let ghost before = data@;
        let ghost pre = crate::ctx_stream::slots_code(st0, d, w, si, slots, r, k as nat);
        if zero[k] {
            clear_rect_channel(data, plane, rect, channel, Ghost(h));
            proof {
                if good {
                    assert(crate::ctx_stream::slots_code(st0, d, w, si, slots, r, (k + 1) as nat) == pre);
                    assert forall|x: int, y: int| r.x <= x < r.x + r.w && r.y <= y < r.y + r.h implies #[trigger] agrees_at(
                        data@,
                        d,
                        w,
                        si,
                        x,
                        y,
                        channel as int,
                    ) by {
                        crate::ctx_stream::lemma_block_value_at(d, w, si, r, channel as int, r.h as nat, y - r.y, x - r.x);
                        let vals = crate::encode::block_values(d, w, si, r, channel as int);
                        assert(vals[(y - r.y) * r.w + (x - r.x)] == 0);
                    }
                }
            }
        } else {
            proof {
                if good {
                    crate::ctx_stream::lemma_slots_code_step(st0, d, w, si, slots, r, k as nat, n as nat);
                    let q = crate::ctx_stream::rows_code(pre.1, d, w, si, r, channel as int, r.h as nat);
                    assert(crate::ctx_stream::slots_code(st0, d, w, si, slots, r, (k + 1) as nat).0 == pre.0 + q.0);
                    lemma_bits_at_prefix(s0, after_flags, pre.0 + q.0, body);
                    lemma_bits_at_split(s0, after_flags, pre.0, q.0);
                    assert(frame_agrees(start, d, w, si, r, slots[k as int] as int));
                    assert(frame_agrees(data@, d, w, si, r, channel as int)) by {
                        let xl = r.x - 1;
                        let ya = r.y - 1;
                        if r.x > 0 {
                            assert forall|y: int| r.y <= y < r.y + r.h implies #[trigger] agrees_at(data@, d, w, si, xl, y, channel as int) by {
                                assert(agrees_at(start, d, w, si, xl, y, channel as int));
                                lemma_index(w, h as int, si, xl, y, channel as int);
                            }
                        }
                        if r.y > 0 {
                            assert forall|x: int| xl <= x < r.x + r.w && x >= 0 implies #[trigger] agrees_at(data@, d, w, si, x, ya, channel as int) by {
                                assert(agrees_at(start, d, w, si, x, ya, channel as int));
                                lemma_index(w, h as int, si, x, ya, channel as int);
                            }
                        }
                    }
                }
            }
            match read_ctx_rows(reader, model, data, plane, rect, channel, Ghost(h), Ghost(d), Ghost(good)) {
                Ok(()) => {},
                Err(e) => {
                    proof {
                        assert forall|j: int|
                            0 <= j < start.len() && !(in_rect(j, w, si, r) && slots.contains((j % si) as usize))
                                implies #[trigger] data@[j] == start[j] by {
                            if in_rect(j, w, si, r) {
                                assert(!slots.take(k as int).contains((j % si) as usize)) by {
                                    if slots.take(k as int).contains((j % si) as usize) {
                                        let q = choose|q: int| 0 <= q < slots.take(k as int).len() && slots.take(k as int)[q] == (j % si) as usize;
                                        assert(slots[q] == (j % si) as usize);
                                        assert(slots.contains(slots[q]));
                                    }
                                }
                            }
                            assert(data@[j] == before[j]);
                        }
                    }
                    return Err(e);
                },
            }
        }
        proof {
            assert forall|j: int|
                0 <= j < start.len() && !(in_rect(j, w, si, r) && slots.take(k + 1).contains((j % si) as usize))
                    implies #[trigger] data@[j] == start[j] by {
                if in_rect(j, w, si, r) {
                    assert(!slots.take(k as int).contains((j % si) as usize)) by {
                        if slots.take(k as int).contains((j % si) as usize) {
                            let q = choose|q: int| 0 <= q < slots.take(k as int).len() && slots.take(k as int)[q] == (j % si) as usize;
                            assert(slots.take(k + 1)[q] == slots[q]);
                            assert(slots.take(k + 1).contains(slots[q]));
                        }
                    }
                }
                if in_rect(j, w, si, r) {
                    assert(slots.take(k + 1)[k as int] == slots[k as int]);
                    assert(j % si != channel);
                }
                assert(data@[j] == before[j]);
            }
            if good {
                assert forall|q: int, x: int, y: int|
                    0 <= q < k + 1 && r.x <= x < r.x + r.w && r.y <= y < r.y + r.h implies #[trigger] agrees_at(
                        data@,
                        d,
                        w,
                        si,
                        x,
                        y,
                        slots[q] as int,
                    ) by {
                    if q < k {
                        assert(agrees_at(before, d, w, si, x, y, slots[q] as int));
                        lemma_index(w, h as int, si, x, y, slots[q] as int);
                        assert(slots[q] < slots[k as int]);
                    }
                }
            }
        }
        k = k + 1;
    }
    proof {
        assert(slots.take(n as int) =~= slots);
        if good {
            assert(reader.pos() == p0 + all.len());
        }
    }
    Ok(())
}

/// A pixel above a block, or left of it on one of its rows, lies in a block read before it.
proof fn lemma_before_block(grid: BlockGrid, bx: nat, by: nat, x: int, y: int)
    requires
        grid.wf(),
        bx < grid.spec_blocks_x(),
        by < grid.spec_blocks_y(),
        0 <= x < grid.spec_width(),
        0 <= y < grid.spec_height(),
        y < grid.spec_rect(bx, by).y || (grid.spec_rect(bx, by).y <= y < grid.spec_rect(bx, by).y
            + grid.spec_rect(bx, by).h && x < grid.spec_rect(bx, by).x),
    ensures
        y / (grid.spec_block_h() as int) < by || (y / (grid.spec_block_h() as int) == by && x / (
        grid.spec_block_w() as int) < bx),
{
    grid.lemma_wf();
    let bw = grid.spec_block_w() as int;
    let bh = grid.spec_block_h() as int;
    crate::block::lemma_block_origin(bx, bw as nat, grid.spec_width() as nat);
    crate::block::lemma_block_origin(by, bh as nat, grid.spec_height() as nat);
    lemma_fundamental_div_mod(x, bw);
    lemma_fundamental_div_mod(y, bh);
    lemma_mod_pos_bound(x, bw);
    lemma_mod_pos_bound(y, bh);
    let qx = x / bw;
    let qy = y / bh;
    assert(y < by * bh ==> qy < by) by (nonlinear_arith)
        requires
            y == bh * qy + y % bh,
            0 <= y % bh < bh,
            bh > 0,
    ;
    assert(x < bx * bw ==> qx < bx) by (nonlinear_arith)
        requires
            x == bw * qx + x % bw,
            0 <= x % bw < bw,
            bw > 0,
    ;
    if !(y < grid.spec_rect(bx, by).y) {
        lemma_in_block(grid, bx, by, grid.spec_rect(bx, by).x as int, y);
        assert(grid.spec_rect(bx, by).w > 0) by {
            assert(bx * bw < grid.spec_width());
        }
        assert((grid.spec_rect(bx, by).x as int) / bw == bx);
    }
}

/// Reads every block under the context coder.
///
/// Where the stream holds the blocks as the encoder writes them for a plane `d`, this reads them
/// whole and fills in `d`'s samples of every coded channel, leaving the rest of `data` alone.
fn read_context_blocks(
    reader: &mut BitReader,
    data: &mut Vec<u8>,
    stride: usize,
    coded: &CodedIndices,
    grid: &BlockGrid,
    Ghost(d): Ghost<Seq<u8>>,
) -> (r: Result<(), BrpError>)
    requires
        old(reader).wf(),
        coded.wf(),
        plane_ok(old(data)@, *grid, stride as nat, coded.spec_slots()),
    ensures
        final(reader).wf(),
        final(reader).bits() == old(reader).bits(),
        final(data)@.len() == old(data)@.len(),
        d.len() == old(data)@.len() && bits_at(
            old(reader).bits(),
            old(reader).pos(),
            crate::ctx_stream::context_bits(*grid, d, stride as int, coded.spec_slots()),
        ) ==> {
            &&& r is Ok
            &&& final(reader).pos() == old(reader).pos() + crate::ctx_stream::context_bits(
                *grid,
                d,
                stride as int,
                coded.spec_slots(),
            ).len()
            &&& forall|i: int|
                0 <= i < d.len() ==> #[trigger] final(data)@[i] == if predict::is_coded(
                    coded.spec_slots(),
                    i,
                    stride as int,
                ) {
                    d[i]
                } else {
                    old(data)@[i]
                }
        },
{
    let ghost slots = coded.spec_slots();
    let ghost s0 = reader.bits();
    let ghost p0 = reader.pos();
    let ghost si = stride as int;
    let ghost all = crate::ctx_stream::context_bits(*grid, d, si, slots);
    let ghost good = d.len() == old(data)@.len() && bits_at(s0, p0, all);
    let ghost init = crate::context::initial_state();
    let total = data.len();
    let img_w = grid.width();
    let ghost gw = img_w as int;
    let ghost gh = grid.spec_height();
    let nx = grid.blocks_x();
    let ny = grid.blocks_y();
    proof {
        grid.lemma_wf();
        coded.lemma_wf();
    }
    if img_w == 0 || ny == 0 {
        proof {
            if ny == 0 && img_w != 0 {
                assert(gh == 0) by {
                    crate::block::lemma_ceil_div(gh as nat, grid.spec_block_h() as nat);
                    vstd::arithmetic::div_mod::lemma_fundamental_div_mod(gh as int, grid.spec_block_h() as int);
                }
            }
            assert(total == 0) by (nonlinear_arith)
                requires
                    total == img_w * gh * stride,
                    img_w == 0 || gh == 0,
            ;
            if good && ny > 0 {
                assert(grid.spec_blocks_x() == 0) by {
                    crate::block::lemma_ceil_div(0, grid.spec_block_w() as nat);
                }
                crate::ctx_stream::lemma_empty_rows_code(*grid, d, si, slots, ny as nat);
            }
        }
        return Ok(());
    }
    proof {
        crate::block::lemma_ceil_div(gh as nat, grid.spec_block_h() as nat);
        assert(gh > 0) by {
            if gh == 0 {
                assert(crate::block::ceil_div(0, grid.spec_block_h() as nat) == 0);
            }
        }
        assert(img_w * stride <= total) by (nonlinear_arith)
            requires
                total == img_w * gh * stride,
                gh > 0,
        ;
        assert(index_of(gw, si, 0, gh as int, 0) == total) by (nonlinear_arith)
            requires
                total == img_w * gh * stride,
                gw == img_w,
                si == stride,
        ;
        assert forall|i: int| 0 <= i < total implies !blocks_done(i, gw, si, *grid, 0, 0) by {
            lemma_sample_in_grid(*grid, si, i);
        }
    }
    let plane = Plane::new(img_w, stride);
    let mut model = ContextModel::new();
    let mut by: u32 = 0;
    while by < ny
        invariant
            reader.wf(),
            reader.bits() == s0,
            s0 == old(reader).bits(),
            p0 == old(reader).pos(),
            crate::context::ContextModel::within(model),
            coded.wf(),
            ascending_below(slots, 4),
            data@.len() == total,
            total == old(data)@.len(),
            total <= usize::MAX,
            plane_ok(data@, *grid, stride as nat, slots),
            slots == coded.spec_slots(),
            img_w == grid.spec_width(),
            gw == img_w,
            gh == grid.spec_height(),
            index_of(gw, si, 0, gh as int, 0) == total,
            si == stride,
            all == crate::ctx_stream::context_bits(*grid, d, si, slots),
            init == crate::context::initial_state(),
            good == (d.len() == old(data)@.len() && bits_at(s0, p0, all)),
            nx == grid.spec_blocks_x(),
            ny == grid.spec_blocks_y(),
            plane.wf(),
            plane.width == img_w,
            plane.stride == stride,
            by <= ny,
            good ==> reader.pos() == p0 + crate::ctx_stream::grid_code(init, *grid, d, si, slots, by as nat).0.len(),
            good ==> model.state() == crate::ctx_stream::grid_code(init, *grid, d, si, slots, by as nat).1,
            good ==> forall|i: int|
                0 <= i < total ==> #[trigger] data@[i] == if blocks_done(i, gw, si, *grid, by as int, 0)
                    && predict::is_coded(slots, i, si) {
                    d[i]
                } else {
                    old(data)@[i]
                },
        decreases ny - by,
    {
        let ghost rows_before = crate::ctx_stream::grid_code(init, *grid, d, si, slots, by as nat);
        let ghost this_row = crate::ctx_stream::row_code(rows_before.1, *grid, d, si, slots, by as nat, nx as nat);
        proof {
            if good {
                crate::ctx_stream::lemma_grid_code_step(init, *grid, d, si, slots, by as nat, ny as nat);
                lemma_bits_at_prefix(s0, p0, crate::ctx_stream::grid_code(init, *grid, d, si, slots, (by + 1) as nat).0, all);
                lemma_bits_at_split(s0, p0, rows_before.0, this_row.0);
                assert forall|i: int| 0 <= i < total implies (#[trigger] data@[i]) == if blocks_done(
                    i,
                    gw,
                    si,
                    *grid,
                    by as int,
                    0,
                ) && predict::is_coded(slots, i, si) {
                    d[i]
                } else {
                    old(data)@[i]
                } by {}
            }
        }
        let mut bx: u32 = 0;
        while bx < nx
            invariant
                reader.wf(),
                reader.bits() == s0,
                s0 == old(reader).bits(),
                p0 == old(reader).pos(),
                crate::context::ContextModel::within(model),
                coded.wf(),
                ascending_below(slots, 4),
                data@.len() == total,
                total == old(data)@.len(),
                total <= usize::MAX,
                plane_ok(data@, *grid, stride as nat, slots),
                slots == coded.spec_slots(),
                img_w == grid.spec_width(),
                gw == img_w,
                gh == grid.spec_height(),
                index_of(gw, si, 0, gh as int, 0) == total,
                si == stride,
                all == crate::ctx_stream::context_bits(*grid, d, si, slots),
                init == crate::context::initial_state(),
                good == (d.len() == old(data)@.len() && bits_at(s0, p0, all)),
                rows_before == crate::ctx_stream::grid_code(init, *grid, d, si, slots, by as nat),
                this_row == crate::ctx_stream::row_code(rows_before.1, *grid, d, si, slots, by as nat, nx as nat),
                nx == grid.spec_blocks_x(),
                ny == grid.spec_blocks_y(),
                plane.wf(),
                plane.width == img_w,
                plane.stride == stride,
                by < ny,
                bx <= nx,
                good ==> bits_at(s0, p0 + rows_before.0.len(), this_row.0),
                good ==> reader.pos() == p0 + rows_before.0.len() + crate::ctx_stream::row_code(
                    rows_before.1,
                    *grid,
                    d,
                    si,
                    slots,
                    by as nat,
                    bx as nat,
                ).0.len(),
                good ==> model.state() == crate::ctx_stream::row_code(rows_before.1, *grid, d, si, slots, by as nat, bx as nat).1,
                good ==> forall|i: int|
                    0 <= i < total ==> #[trigger] data@[i] == if blocks_done(i, gw, si, *grid, by as int, bx as int)
                        && predict::is_coded(slots, i, si) {
                        d[i]
                    } else {
                        old(data)@[i]
                    },
            decreases nx - bx,
        {
            let rect = grid.rect(bx, by);
            let ghost prefix = crate::ctx_stream::row_code(rows_before.1, *grid, d, si, slots, by as nat, bx as nat);
            proof {
                crate::encode::lemma_rect_fits(*grid, data@, stride as nat, bx as nat, by as nat);
                if good {
                    crate::ctx_stream::lemma_row_code_step(rows_before.1, *grid, d, si, slots, by as nat, bx as nat, nx as nat);
                    lemma_bits_at_prefix(
                        s0,
                        p0 + rows_before.0.len(),
                        crate::ctx_stream::row_code(rows_before.1, *grid, d, si, slots, by as nat, (bx + 1) as nat).0,
                        this_row.0,
                    );
                    lemma_bits_at_split(
                        s0,
                        p0 + rows_before.0.len(),
                        prefix.0,
                        crate::ctx_stream::block_code(prefix.1, d, gw, si, slots, rect).0,
                    );
                    // The contexts of this block read only pixels of blocks already read.
                    assert forall|k: int| 0 <= k < slots.len() implies #[trigger] frame_agrees(
                        data@,
                        d,
                        gw,
                        si,
                        rect,
                        slots[k] as int,
                    ) by {
                        let c = slots[k] as int;
                        let xl = rect.x - 1;
                        let ya = rect.y - 1;
                        if rect.x > 0 {
                            assert forall|y: int| rect.y <= y < rect.y + rect.h implies #[trigger] agrees_at(
                                data@,
                                d,
                                gw,
                                si,
                                xl,
                                y,
                                c,
                            ) by {
                                lemma_index(gw, gh as int, si, xl, y, c);
                                lemma_before_block(*grid, bx as nat, by as nat, xl, y);
                                assert(slots.contains(slots[k]));
                            }
                        }
                        if rect.y > 0 {
                            assert forall|x: int| xl <= x < rect.x + rect.w && x >= 0 implies #[trigger] agrees_at(
                                data@,
                                d,
                                gw,
                                si,
                                x,
                                ya,
                                c,
                            ) by {
                                lemma_index(gw, gh as int, si, x, ya, c);
                                lemma_before_block(*grid, bx as nat, by as nat, x, ya);
                                assert(slots.contains(slots[k]));
                            }
                        }
                    }
                }
            }
            let ghost before = data@;
            match read_ctx_block(reader, &mut model, data, &plane, coded, &rect, Ghost(gh), Ghost(d), Ghost(good)) {
                Ok(()) => {},
                Err(e) => {
                    return Err(e);
                },
            }
            proof {
                if good {
                    assert forall|i: int| 0 <= i < total implies #[trigger] data@[i] == if blocks_done(
                        i,
                        gw,
                        si,
                        *grid,
                        by as int,
                        (bx + 1) as int,
                    ) && predict::is_coded(slots, i, si) {
                        d[i]
                    } else {
                        old(data)@[i]
                    } by {
                        lemma_sample_in_grid(*grid, si, i);
                        let x = col_of(i, gw, si);
                        let y = row_of(i, gw, si);
                        lemma_in_block(*grid, bx as nat, by as nat, x, y);
                        assert(before[i] == if blocks_done(i, gw, si, *grid, by as int, bx as int)
                            && predict::is_coded(slots, i, si) {
                            d[i]
                        } else {
                            old(data)@[i]
                        });
                        if in_rect(i, gw, si, rect) && slots.contains((i % si) as usize) {
                            let k = choose|k: int| 0 <= k < slots.len() && slots[k] == (i % si) as usize;
                            assert(agrees_at(data@, d, gw, si, x, y, slots[k] as int));
                        }
                    }
                }
            }
            bx = bx + 1;
        }
        proof {
            if good {
                assert forall|i: int| 0 <= i < total implies #[trigger] data@[i] == if blocks_done(
                    i,
                    gw,
                    si,
                    *grid,
                    (by + 1) as int,
                    0,
                ) && predict::is_coded(slots, i, si) {
                    d[i]
                } else {
                    old(data)@[i]
                } by {
                    lemma_sample_in_grid(*grid, si, i);
                    lemma_block_of_pixel(*grid, col_of(i, gw, si), row_of(i, gw, si));
                }
                assert(crate::ctx_stream::grid_code(init, *grid, d, si, slots, (by + 1) as nat).0 =~= rows_before.0 + this_row.0);
            }
        }
        by = by + 1;
    }
    proof {
        if good {
            assert forall|i: int| 0 <= i < total implies #[trigger] data@[i] == if predict::is_coded(
                slots,
                i,
                si,
            ) {
                d[i]
            } else {
                old(data)@[i]
            } by {
                lemma_sample_in_grid(*grid, si, i);
                lemma_block_of_pixel(*grid, col_of(i, gw, si), row_of(i, gw, si));
            }
        }
    }
    Ok(())
}


/// What follows a header determines the predictor codes and every coded sample: two readings of
/// one body as the encoder writes it agree on both.
pub proof fn lemma_body_unique(
    h: Header,
    body: Seq<u8>,
    k1: Seq<u8>,
    d1: Seq<u8>,
    k2: Seq<u8>,
    d2: Seq<u8>,
)
    requires
        crate::header::header_valid(h),
        body_ready(h, body, k1, d1),
        body_ready(h, body, k2, d2),
        d1.len() == h.width * h.height * h.channels,
        d2.len() == d1.len(),
    ensures
        k1 == k2,
        forall|i: int|
            0 <= i < d1.len() && predict::is_coded(h.plan.spec_coded(), i, h.channels as int)
                ==> d1[i] == d2[i],
{
    let s = byte_bits(body);
    let g = crate::file::header_grid(h);
    let stride = h.channels as int;
    let slots = h.plan.spec_coded();
    let g1 = crate::ctx_stream::blocks_bits(g, d1, stride, slots, h.block_coder);
    let g2 = crate::ctx_stream::blocks_bits(g, d2, stride, slots, h.block_coder);
    let b1 = kind_bits(k1) + g1;
    let b2 = kind_bits(k2) + g2;
    assert(body_bits(h, k1, d1) == b1);
    assert(body_bits(h, k2, d2) == b2);
    crate::stream::lemma_prefix_append(b1, zeros(pad_len(b1.len())));
    crate::stream::lemma_prefix_append(b2, zeros(pad_len(b2.len())));
    assert(bits_at(s, 0, b1)) by {
        assert(s.subrange(0, b1.len() as int) =~= b1);
    }
    assert(bits_at(s, 0, b2)) by {
        assert(s.subrange(0, b2.len() as int) =~= b2);
    }
    lemma_bits_at_split(s, 0, kind_bits(k1), g1);
    lemma_bits_at_split(s, 0, kind_bits(k2), g2);
    lemma_kind_bits_len(k1);
    lemma_kind_bits_len(k2);
    assert(kind_bits(k1) == kind_bits(k2)) by {
        assert(kind_bits(k1) =~= s.subrange(0, kind_bits(k1).len() as int));
        assert(kind_bits(k2) =~= s.subrange(0, kind_bits(k2).len() as int));
    }
    crate::file::lemma_kind_bits_unique(k1, k2);
    BlockGrid::lemma_spec_new(h.width, h.height, h.block_w, h.block_h);
    lemma_coded_list(h.plan.spec_modes(), h.channels as nat);
    assert forall|k: int| 0 <= k < slots.len() implies slots[k] < stride by {
        assert(slots.contains(slots[k]));
    }
    if h.block_coder == BLOCK_CODER_CONTEXT {
        lemma_context_unique(g, d1, d2, stride, slots, s, kind_bits(k1).len());
    } else {
        lemma_plane_unique(g, d1, d2, stride, slots, h.block_coder, s, kind_bits(k1).len());
    }
}


/// A file as the encoder writes it has one reading: any two headers, code lists and planes it
/// holds describe the same image and restore the same samples.
pub proof fn lemma_file_unique(
    bytes: Seq<u8>,
    h1: Header,
    k1: Seq<u8>,
    d1: Seq<u8>,
    h2: Header,
    k2: Seq<u8>,
    d2: Seq<u8>,
)
    requires
        file_leads(bytes, h1, k1, d1),
        file_leads(bytes, h2, k2, d2),
    ensures
        same_header(h1, h2),
        k1 == k2,
        restored_ranks(h1, k1, d1) == restored_ranks(h2, k2, d2),
        ranks_valid(h1, restored_ranks(h1, k1, d1)) == ranks_valid(h2, restored_ranks(h2, k2, d2)),
        restored(h1, k1, d1) == restored(h2, k2, d2),
{
    crate::header::lemma_header_unique(h1, h2, bytes);
    lemma_same_header_decodes_alike(h1, h2, k2, d2);
    let n = h1.spec_bytes().len() as int;
    let rest = bytes.subrange(n, bytes.len() as int);
    let stride = h1.channels as int;
    let slots = h1.plan.spec_coded();
    if slots.len() == 0 {
        assert(h1.filter_mode == crate::header::FILTER_MODE_NONE);
        assert(k1 =~= k2);
        assert(assembled(h1, d1) =~= assembled(h1, d2)) by {
            assert forall|i: int| 0 <= i < d1.len() implies !predict::is_coded(slots, i, stride) by {}
        }
    } else {
        assert(body_ready(h1, rest, k1, d1));
        assert(body_ready(h1, rest, k2, d2));
        lemma_body_unique(h1, rest, k1, d1, k2, d2);
        assert(assembled(h1, d1) =~= assembled(h1, d2));
    }
}


/// Two planes whose codes of one row run both start at one place, from one model, agree on the
/// run wherever they agree on what its contexts read from outside it; and their codes have one
/// length and leave one model.
proof fn lemma_cols_unique(
    st: (Seq<u32>, Seq<u32>),
    d1: Seq<u8>,
    d2: Seq<u8>,
    w: int,
    h: int,
    si: int,
    x0: int,
    y: int,
    c: int,
    n: nat,
    s: Seq<bool>,
    pos: nat,
)
    requires
        0 <= x0,
        x0 + n <= w,
        0 <= y < h,
        0 <= c < si,
        w * h * si <= d1.len(),
        w * h * si <= d2.len(),
        bits_at(s, pos, crate::ctx_stream::cols_code(st, d1, w, si, x0, y, c, n).0),
        bits_at(s, pos, crate::ctx_stream::cols_code(st, d2, w, si, x0, y, c, n).0),
        x0 > 0 && n > 0 ==> agrees_at(d1, d2, w, si, x0 - 1, y, c),
        y > 0 ==> forall|x: int| x0 - 1 <= x < x0 + n && x >= 0 ==> #[trigger] agrees_at(d1, d2, w, si, x, y - 1, c),
    ensures
        crate::ctx_stream::cols_code(st, d1, w, si, x0, y, c, n).0.len() == crate::ctx_stream::cols_code(
            st,
            d2,
            w,
            si,
            x0,
            y,
            c,
            n,
        ).0.len(),
        crate::ctx_stream::cols_code(st, d1, w, si, x0, y, c, n).1 == crate::ctx_stream::cols_code(
            st,
            d2,
            w,
            si,
            x0,
            y,
            c,
            n,
        ).1,
        forall|x: int| x0 <= x < x0 + n ==> #[trigger] agrees_at(d1, d2, w, si, x, y, c),
    decreases n,
{
    if n > 0 {
        let k = (n - 1) as nat;
        let p1 = crate::ctx_stream::cols_code(st, d1, w, si, x0, y, c, k);
        let p2 = crate::ctx_stream::cols_code(st, d2, w, si, x0, y, c, k);
        crate::ctx_stream::lemma_cols_code_step(st, d1, w, si, x0, y, c, k, n);
        crate::ctx_stream::lemma_cols_code_step(st, d2, w, si, x0, y, c, k, n);
        let x = x0 + k;
        let i = index_of(w, si, x, y, c);
        let q1 = crate::ctx_stream::sample_code(p1.1, d1, i, w, si);
        let q2 = crate::ctx_stream::sample_code(p2.1, d2, i, w, si);
        assert(crate::ctx_stream::cols_code(st, d1, w, si, x0, y, c, n).0 == p1.0 + q1.0);
        assert(crate::ctx_stream::cols_code(st, d2, w, si, x0, y, c, n).0 == p2.0 + q2.0);
        lemma_bits_at_split(s, pos, p1.0, q1.0);
        lemma_bits_at_split(s, pos, p2.0, q2.0);
        lemma_cols_unique(st, d1, d2, w, h, si, x0, y, c, k, s, pos);
        lemma_index(w, h, si, x, y, c);
        lemma_ctx_agrees(d1, d2, w, h, si, x, y, c);
        let ctx = crate::ctx_stream::ctx_of(d1, i, w, si);
        let kk = crate::context::spec_parameter(p1.1.0[ctx] as nat, p1.1.1[ctx] as nat);
        assert(kk <= crate::rice::MAX_K) by {
            crate::context::lemma_parameter_bound(p1.1.0[ctx] as nat, p1.1.1[ctx] as nat);
        }
        crate::rice::lemma_rice_round_trip(s, pos + p1.0.len(), d1[i] as nat, kk);
        crate::rice::lemma_rice_round_trip(s, pos + p1.0.len(), d2[i] as nat, kk);
        assert(d1[i] == d2[i]);
        assert forall|xx: int| x0 <= xx < x0 + n implies #[trigger] agrees_at(d1, d2, w, si, xx, y, c) by {
            if xx < x {
                assert(agrees_at(d1, d2, w, si, xx, y, c));
            }
        }
    }
}


/// [`lemma_cols_unique`], over the first `n` rows of a block-channel whose frame agrees.
proof fn lemma_rows_unique(
    st: (Seq<u32>, Seq<u32>),
    d1: Seq<u8>,
    d2: Seq<u8>,
    w: int,
    h: int,
    si: int,
    r: BlockRect,
    c: int,
    n: nat,
    s: Seq<bool>,
    pos: nat,
)
    requires
        r.x + r.w <= w,
        r.y + r.h <= h,
        n <= r.h,
        0 <= c < si,
        w * h * si <= d1.len(),
        w * h * si <= d2.len(),
        bits_at(s, pos, crate::ctx_stream::rows_code(st, d1, w, si, r, c, n).0),
        bits_at(s, pos, crate::ctx_stream::rows_code(st, d2, w, si, r, c, n).0),
        frame_agrees(d1, d2, w, si, r, c),
    ensures
        crate::ctx_stream::rows_code(st, d1, w, si, r, c, n).0.len() == crate::ctx_stream::rows_code(
            st,
            d2,
            w,
            si,
            r,
            c,
            n,
        ).0.len(),
        crate::ctx_stream::rows_code(st, d1, w, si, r, c, n).1 == crate::ctx_stream::rows_code(
            st,
            d2,
            w,
            si,
            r,
            c,
            n,
        ).1,
        forall|x: int, y: int|
            r.x <= x < r.x + r.w && r.y <= y < r.y + n ==> #[trigger] agrees_at(d1, d2, w, si, x, y, c),
    decreases n,
{
    if n > 0 {
        let k = (n - 1) as nat;
        let p1 = crate::ctx_stream::rows_code(st, d1, w, si, r, c, k);
        let p2 = crate::ctx_stream::rows_code(st, d2, w, si, r, c, k);
        let y = r.y + k;
        let q1 = crate::ctx_stream::cols_code(p1.1, d1, w, si, r.x as int, y, c, r.w as nat);
        let q2 = crate::ctx_stream::cols_code(p2.1, d2, w, si, r.x as int, y, c, r.w as nat);
        assert(crate::ctx_stream::rows_code(st, d1, w, si, r, c, n).0 == p1.0 + q1.0);
        assert(crate::ctx_stream::rows_code(st, d2, w, si, r, c, n).0 == p2.0 + q2.0);
        lemma_bits_at_split(s, pos, p1.0, q1.0);
        lemma_bits_at_split(s, pos, p2.0, q2.0);
        lemma_rows_unique(st, d1, d2, w, h, si, r, c, k, s, pos);
        let xl = r.x - 1;
        let ya = r.y - 1;
        if r.x > 0 && r.w > 0 {
            assert(agrees_at(d1, d2, w, si, xl, y, c));
        }
        if y > 0 {
            let yb = y - 1;
            assert forall|x: int| r.x - 1 <= x < r.x + r.w && x >= 0 implies #[trigger] agrees_at(
                d1,
                d2,
                w,
                si,
                x,
                yb,
                c,
            ) by {
                if k == 0 {
                    assert(agrees_at(d1, d2, w, si, x, ya, c));
                } else if x < r.x {
                    assert(agrees_at(d1, d2, w, si, xl, yb, c));
                } else {
                    assert(agrees_at(d1, d2, w, si, x, yb, c));
                }
            }
        }
        lemma_cols_unique(p1.1, d1, d2, w, h, si, r.x as int, y, c, r.w as nat, s, pos + p1.0.len());
        assert forall|x: int, yy: int| r.x <= x < r.x + r.w && r.y <= yy < r.y + n implies #[trigger] agrees_at(
            d1,
            d2,
            w,
            si,
            x,
            yy,
            c,
        ) by {
            if yy < y {
                assert(agrees_at(d1, d2, w, si, x, yy, c));
            }
        }
    }
}


/// Two planes whose zero flags for a block both start at one place have the same flags.
proof fn lemma_flags_unique(
    d1: Seq<u8>,
    d2: Seq<u8>,
    w: int,
    si: int,
    slots: Seq<usize>,
    r: BlockRect,
    n: nat,
    s: Seq<bool>,
    pos: nat,
)
    requires
        bits_at(s, pos, crate::ctx_stream::flags_bits(d1, w, si, slots, r, n)),
        bits_at(s, pos, crate::ctx_stream::flags_bits(d2, w, si, slots, r, n)),
    ensures
        crate::ctx_stream::flags_bits(d1, w, si, slots, r, n) == crate::ctx_stream::flags_bits(
            d2,
            w,
            si,
            slots,
            r,
            n,
        ),
        forall|q: int|
            0 <= q < n ==> #[trigger] crate::ctx_stream::zero_at(d1, w, si, slots, r, q)
                == crate::ctx_stream::zero_at(d2, w, si, slots, r, q),
    decreases n,
{
    if n > 0 {
        let k = (n - 1) as nat;
        let a1 = crate::ctx_stream::flags_bits(d1, w, si, slots, r, k);
        let a2 = crate::ctx_stream::flags_bits(d2, w, si, slots, r, k);
        let f1: nat = if crate::ctx_stream::zero_at(d1, w, si, slots, r, k as int) { 1 } else { 0 };
        let f2: nat = if crate::ctx_stream::zero_at(d2, w, si, slots, r, k as int) { 1 } else { 0 };
        lemma_bits_at_split(s, pos, a1, bits_of(f1, 1));
        lemma_bits_at_split(s, pos, a2, bits_of(f2, 1));
        lemma_flags_unique(d1, d2, w, si, slots, r, k, s, pos);
        lemma2_to64();
        lemma_field_reads(s, pos + a1.len(), f1, 1);
        lemma_field_reads(s, pos + a1.len(), f2, 1);
        assert(f1 == f2);
    }
}

/// [`lemma_rows_unique`], over the first `n` coded channels of a block whose flags agree.
proof fn lemma_slots_unique(
    st: (Seq<u32>, Seq<u32>),
    d1: Seq<u8>,
    d2: Seq<u8>,
    w: int,
    h: int,
    si: int,
    slots: Seq<usize>,
    r: BlockRect,
    n: nat,
    s: Seq<bool>,
    pos: nat,
)
    requires
        r.x + r.w <= w,
        r.y + r.h <= h,
        n <= slots.len(),
        forall|q: int| 0 <= q < slots.len() ==> slots[q] < si,
        w * h * si <= d1.len(),
        w * h * si <= d2.len(),
        bits_at(s, pos, crate::ctx_stream::slots_code(st, d1, w, si, slots, r, n).0),
        bits_at(s, pos, crate::ctx_stream::slots_code(st, d2, w, si, slots, r, n).0),
        forall|q: int|
            0 <= q < n ==> #[trigger] crate::ctx_stream::zero_at(d1, w, si, slots, r, q)
                == crate::ctx_stream::zero_at(d2, w, si, slots, r, q),
        forall|q: int| 0 <= q < n ==> #[trigger] frame_agrees(d1, d2, w, si, r, slots[q] as int),
    ensures
        crate::ctx_stream::slots_code(st, d1, w, si, slots, r, n).0.len() == crate::ctx_stream::slots_code(
            st,
            d2,
            w,
            si,
            slots,
            r,
            n,
        ).0.len(),
        crate::ctx_stream::slots_code(st, d1, w, si, slots, r, n).1 == crate::ctx_stream::slots_code(
            st,
            d2,
            w,
            si,
            slots,
            r,
            n,
        ).1,
        forall|q: int, x: int, y: int|
            0 <= q < n && r.x <= x < r.x + r.w && r.y <= y < r.y + r.h ==> #[trigger] agrees_at(
                d1,
                d2,
                w,
                si,
                x,
                y,
                slots[q] as int,
            ),
    decreases n,
{
    if n > 0 {
        let k = (n - 1) as nat;
        let p1 = crate::ctx_stream::slots_code(st, d1, w, si, slots, r, k);
        let p2 = crate::ctx_stream::slots_code(st, d2, w, si, slots, r, k);
        let c = slots[k as int] as int;
        if crate::ctx_stream::zero_at(d1, w, si, slots, r, k as int) {
            lemma_slots_unique(st, d1, d2, w, h, si, slots, r, k, s, pos);
            assert forall|x: int, y: int| r.x <= x < r.x + r.w && r.y <= y < r.y + r.h implies #[trigger] agrees_at(
                d1,
                d2,
                w,
                si,
                x,
                y,
                c,
            ) by {
                crate::ctx_stream::lemma_block_value_at(d1, w, si, r, c, r.h as nat, y - r.y, x - r.x);
                crate::ctx_stream::lemma_block_value_at(d2, w, si, r, c, r.h as nat, y - r.y, x - r.x);
                let v1 = crate::encode::block_values(d1, w, si, r, c);
                let v2 = crate::encode::block_values(d2, w, si, r, c);
                assert(v1[(y - r.y) * r.w + (x - r.x)] == 0);
                assert(v2[(y - r.y) * r.w + (x - r.x)] == 0);
            }
        } else {
            let q1 = crate::ctx_stream::rows_code(p1.1, d1, w, si, r, c, r.h as nat);
            let q2 = crate::ctx_stream::rows_code(p2.1, d2, w, si, r, c, r.h as nat);
            assert(crate::ctx_stream::slots_code(st, d1, w, si, slots, r, n).0 == p1.0 + q1.0);
            assert(crate::ctx_stream::slots_code(st, d2, w, si, slots, r, n).0 == p2.0 + q2.0);
            lemma_bits_at_split(s, pos, p1.0, q1.0);
            lemma_bits_at_split(s, pos, p2.0, q2.0);
            lemma_slots_unique(st, d1, d2, w, h, si, slots, r, k, s, pos);
            assert(frame_agrees(d1, d2, w, si, r, c));
            lemma_rows_unique(p1.1, d1, d2, w, h, si, r, c, r.h as nat, s, pos + p1.0.len());
        }
        assert forall|q: int, x: int, y: int|
            0 <= q < n && r.x <= x < r.x + r.w && r.y <= y < r.y + r.h implies #[trigger] agrees_at(
                d1,
                d2,
                w,
                si,
                x,
                y,
                slots[q] as int,
            ) by {
            if q < k {
                assert(agrees_at(d1, d2, w, si, x, y, slots[q] as int));
            }
        }
    }
}


/// [`lemma_slots_unique`] for a whole block: its flags, then its channels.
proof fn lemma_ctx_block_unique(
    st: (Seq<u32>, Seq<u32>),
    d1: Seq<u8>,
    d2: Seq<u8>,
    w: int,
    h: int,
    si: int,
    slots: Seq<usize>,
    r: BlockRect,
    s: Seq<bool>,
    pos: nat,
)
    requires
        r.x + r.w <= w,
        r.y + r.h <= h,
        forall|q: int| 0 <= q < slots.len() ==> slots[q] < si,
        w * h * si <= d1.len(),
        w * h * si <= d2.len(),
        bits_at(s, pos, crate::ctx_stream::block_code(st, d1, w, si, slots, r).0),
        bits_at(s, pos, crate::ctx_stream::block_code(st, d2, w, si, slots, r).0),
        forall|q: int| 0 <= q < slots.len() ==> #[trigger] frame_agrees(d1, d2, w, si, r, slots[q] as int),
    ensures
        crate::ctx_stream::block_code(st, d1, w, si, slots, r).0.len() == crate::ctx_stream::block_code(
            st,
            d2,
            w,
            si,
            slots,
            r,
        ).0.len(),
        crate::ctx_stream::block_code(st, d1, w, si, slots, r).1 == crate::ctx_stream::block_code(
            st,
            d2,
            w,
            si,
            slots,
            r,
        ).1,
        forall|q: int, x: int, y: int|
            0 <= q < slots.len() && r.x <= x < r.x + r.w && r.y <= y < r.y + r.h ==> #[trigger] agrees_at(
                d1,
                d2,
                w,
                si,
                x,
                y,
                slots[q] as int,
            ),
{
    let n = slots.len();
    let f1 = crate::ctx_stream::flags_bits(d1, w, si, slots, r, n);
    let f2 = crate::ctx_stream::flags_bits(d2, w, si, slots, r, n);
    let b1 = crate::ctx_stream::slots_code(st, d1, w, si, slots, r, n).0;
    let b2 = crate::ctx_stream::slots_code(st, d2, w, si, slots, r, n).0;
    lemma_bits_at_split(s, pos, f1, b1);
    lemma_bits_at_split(s, pos, f2, b2);
    lemma_flags_unique(d1, d2, w, si, slots, r, n, s, pos);
    lemma_slots_unique(st, d1, d2, w, h, si, slots, r, n, s, pos + f1.len());
}

/// The first `k` blocks of block row `by` read alike from two planes that agree on every coded
/// sample of the blocks before the row.
proof fn lemma_ctx_row_unique(
    st: (Seq<u32>, Seq<u32>),
    grid: BlockGrid,
    d1: Seq<u8>,
    d2: Seq<u8>,
    si: int,
    slots: Seq<usize>,
    by: nat,
    k: nat,
    s: Seq<bool>,
    pos: nat,
)
    requires
        grid.wf(),
        0 < si <= 4,
        by < grid.spec_blocks_y(),
        k <= grid.spec_blocks_x(),
        forall|q: int| 0 <= q < slots.len() ==> slots[q] < si,
        d1.len() == grid.spec_width() * grid.spec_height() * si,
        d2.len() == d1.len(),
        bits_at(s, pos, crate::ctx_stream::row_code(st, grid, d1, si, slots, by, k).0),
        bits_at(s, pos, crate::ctx_stream::row_code(st, grid, d2, si, slots, by, k).0),
        forall|i: int|
            0 <= i < d1.len() && blocks_done(i, grid.spec_width() as int, si, grid, by as int, 0)
                && predict::is_coded(slots, i, si) ==> d1[i] == d2[i],
    ensures
        crate::ctx_stream::row_code(st, grid, d1, si, slots, by, k).0.len() == crate::ctx_stream::row_code(
            st,
            grid,
            d2,
            si,
            slots,
            by,
            k,
        ).0.len(),
        crate::ctx_stream::row_code(st, grid, d1, si, slots, by, k).1 == crate::ctx_stream::row_code(
            st,
            grid,
            d2,
            si,
            slots,
            by,
            k,
        ).1,
        forall|i: int|
            0 <= i < d1.len() && blocks_done(i, grid.spec_width() as int, si, grid, by as int, k as int)
                && predict::is_coded(slots, i, si) ==> d1[i] == d2[i],
    decreases k,
{
    let w = grid.spec_width() as int;
    let h = grid.spec_height() as int;
    if k == 0 {
    } else {
        let j = (k - 1) as nat;
        let p1 = crate::ctx_stream::row_code(st, grid, d1, si, slots, by, j);
        let p2 = crate::ctx_stream::row_code(st, grid, d2, si, slots, by, j);
        let r = grid.spec_rect(j, by);
        let q1 = crate::ctx_stream::block_code(p1.1, d1, w, si, slots, r);
        let q2 = crate::ctx_stream::block_code(p2.1, d2, w, si, slots, r);
        assert(crate::ctx_stream::row_code(st, grid, d1, si, slots, by, k).0 == p1.0 + q1.0);
        assert(crate::ctx_stream::row_code(st, grid, d2, si, slots, by, k).0 == p2.0 + q2.0);
        lemma_bits_at_split(s, pos, p1.0, q1.0);
        lemma_bits_at_split(s, pos, p2.0, q2.0);
        lemma_ctx_row_unique(st, grid, d1, d2, si, slots, by, j, s, pos);
        crate::encode::lemma_rect_fits(grid, d1, si as nat, j, by);
        assert(w * h * si <= d1.len());
        assert forall|q: int| 0 <= q < slots.len() implies #[trigger] frame_agrees(d1, d2, w, si, r, slots[q] as int) by {
            let c = slots[q] as int;
            let xl = r.x - 1;
            let ya = r.y - 1;
            if r.x > 0 {
                assert forall|y: int| r.y <= y < r.y + r.h implies #[trigger] agrees_at(d1, d2, w, si, xl, y, c) by {
                    lemma_index(w, h, si, xl, y, c);
                    lemma_before_block(grid, j, by, xl, y);
                    assert(slots.contains(slots[q]));
                }
            }
            if r.y > 0 {
                assert forall|x: int| xl <= x < r.x + r.w && x >= 0 implies #[trigger] agrees_at(d1, d2, w, si, x, ya, c) by {
                    lemma_index(w, h, si, x, ya, c);
                    lemma_before_block(grid, j, by, x, ya);
                    assert(slots.contains(slots[q]));
                }
            }
        }
        lemma_ctx_block_unique(p1.1, d1, d2, w, h, si, slots, r, s, pos + p1.0.len());
        assert forall|i: int|
            0 <= i < d1.len() && blocks_done(i, w, si, grid, by as int, k as int) && predict::is_coded(slots, i, si)
                implies d1[i] == d2[i] by {
            lemma_sample_in_grid(grid, si, i);
            let x = col_of(i, w, si);
            let y = row_of(i, w, si);
            lemma_in_block(grid, j, by, x, y);
            if !blocks_done(i, w, si, grid, by as int, j as int) {
                assert(0 <= i % si < si);
                let q = choose|q: int| 0 <= q < slots.len() && slots[q] == (i % si) as usize;
                assert(slots[q] as int == i % si);
                assert(r.x <= x < r.x + r.w && r.y <= y < r.y + r.h);
                assert(agrees_at(d1, d2, w, si, x, y, slots[q] as int));
                assert(index_of(w, si, x, y, slots[q] as int) == i);
            } else {
                assert(blocks_done(i, w, si, grid, by as int, j as int) && predict::is_coded(slots, i, si));
            }
        }
    }
}

/// The first `by` block rows read alike from two planes whose codes both start at one place.
proof fn lemma_ctx_grid_unique(
    grid: BlockGrid,
    d1: Seq<u8>,
    d2: Seq<u8>,
    si: int,
    slots: Seq<usize>,
    by: nat,
    s: Seq<bool>,
    pos: nat,
)
    requires
        grid.wf(),
        0 < si <= 4,
        by <= grid.spec_blocks_y(),
        forall|q: int| 0 <= q < slots.len() ==> slots[q] < si,
        d1.len() == grid.spec_width() * grid.spec_height() * si,
        d2.len() == d1.len(),
        bits_at(s, pos, crate::ctx_stream::grid_code(crate::context::initial_state(), grid, d1, si, slots, by).0),
        bits_at(s, pos, crate::ctx_stream::grid_code(crate::context::initial_state(), grid, d2, si, slots, by).0),
    ensures
        crate::ctx_stream::grid_code(crate::context::initial_state(), grid, d1, si, slots, by).0.len()
            == crate::ctx_stream::grid_code(crate::context::initial_state(), grid, d2, si, slots, by).0.len(),
        crate::ctx_stream::grid_code(crate::context::initial_state(), grid, d1, si, slots, by).1
            == crate::ctx_stream::grid_code(crate::context::initial_state(), grid, d2, si, slots, by).1,
        forall|i: int|
            0 <= i < d1.len() && blocks_done(i, grid.spec_width() as int, si, grid, by as int, 0)
                && predict::is_coded(slots, i, si) ==> d1[i] == d2[i],
    decreases by,
{
    let w = grid.spec_width() as int;
    let init = crate::context::initial_state();
    if by == 0 {
        assert forall|i: int| 0 <= i < d1.len() implies !blocks_done(i, w, si, grid, 0, 0) by {
            lemma_sample_in_grid(grid, si, i);
        }
    } else {
        let j = (by - 1) as nat;
        let p1 = crate::ctx_stream::grid_code(init, grid, d1, si, slots, j);
        let p2 = crate::ctx_stream::grid_code(init, grid, d2, si, slots, j);
        let nx = grid.spec_blocks_x();
        let q1 = crate::ctx_stream::row_code(p1.1, grid, d1, si, slots, j, nx);
        let q2 = crate::ctx_stream::row_code(p2.1, grid, d2, si, slots, j, nx);
        assert(crate::ctx_stream::grid_code(init, grid, d1, si, slots, by).0 == p1.0 + q1.0);
        assert(crate::ctx_stream::grid_code(init, grid, d2, si, slots, by).0 == p2.0 + q2.0);
        lemma_bits_at_split(s, pos, p1.0, q1.0);
        lemma_bits_at_split(s, pos, p2.0, q2.0);
        lemma_ctx_grid_unique(grid, d1, d2, si, slots, j, s, pos);
        lemma_ctx_row_unique(p1.1, grid, d1, d2, si, slots, j, nx, s, pos + p1.0.len());
        assert forall|i: int|
            0 <= i < d1.len() && blocks_done(i, w, si, grid, by as int, 0) && predict::is_coded(slots, i, si)
                implies d1[i] == d2[i] by {
            lemma_sample_in_grid(grid, si, i);
            lemma_block_of_pixel(grid, col_of(i, w, si), row_of(i, w, si));
            assert(blocks_done(i, w, si, grid, j as int, nx as int));
        }
    }
}

/// Two planes whose context codes both start at one place agree on every coded sample: the
/// stream determines the plane it was written from.
pub proof fn lemma_context_unique(
    grid: BlockGrid,
    d: Seq<u8>,
    e: Seq<u8>,
    stride: int,
    slots: Seq<usize>,
    s: Seq<bool>,
    pos: nat,
)
    requires
        grid.wf(),
        0 < stride <= 4,
        d.len() == grid.spec_width() * grid.spec_height() * stride,
        e.len() == d.len(),
        forall|k: int| 0 <= k < slots.len() ==> slots[k] < stride,
        bits_at(s, pos, crate::ctx_stream::context_bits(grid, d, stride, slots)),
        bits_at(s, pos, crate::ctx_stream::context_bits(grid, e, stride, slots)),
    ensures
        crate::ctx_stream::context_bits(grid, d, stride, slots).len() == crate::ctx_stream::context_bits(
            grid,
            e,
            stride,
            slots,
        ).len(),
        forall|i: int| 0 <= i < d.len() && predict::is_coded(slots, i, stride) ==> d[i] == e[i],
{
    let w = grid.spec_width() as int;
    lemma_ctx_grid_unique(grid, d, e, stride, slots, grid.spec_blocks_y(), s, pos);
    assert forall|i: int| 0 <= i < d.len() && predict::is_coded(slots, i, stride) implies d[i] == e[i] by {
        lemma_sample_in_grid(grid, stride, i);
        lemma_block_of_pixel(grid, col_of(i, w, stride), row_of(i, w, stride));
    }
}

} // verus!
