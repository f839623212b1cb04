//! The byte-aligned file header.

use crate::alphabet::{
    any_map, lemma_lists_used_unique, lemma_section_round_trip, lists_used, parse_section,
    section_bytes, tables_from, used_table, valid_values, AlphabetMaps,
};
use crate::channels::{
    coded_list, lemma_coded_list, lemma_parsed_plan_wf, lemma_plan_round_trip, lemma_plan_sizes,
    modes_wf, parse_plan, plan_bytes, ChannelPlan, CodedIndices,
};
use crate::error::BrpError;
use crate::image::{len_fits, required_len};
use vstd::prelude::*;

verus! {

/// ASCII `BRP` followed by 0x1A, which turns text-mode mangling into a magic mismatch rather
/// than silent corruption.
pub const MAGIC: [u8; 4] = [0x42, 0x52, 0x50, 0x1A];

/// Format version this library reads and writes.
pub const VERSION: u8 = 7;

/// The only bit depth the format defines.
pub const BIT_DEPTH: u8 = 8;

/// Width of the per-block parameter field: a width code under [`BLOCK_CODER_FIXED`], a Rice mode
/// under [`BLOCK_CODER_RICE`]. Four bits either way. [`BLOCK_CODER_CONTEXT`] has no such field.
pub const WIDTH_CODE_BITS: u32 = 4;

/// Width of the per-block-channel escape flag under [`BLOCK_CODER_CONTEXT`]: 1 means every
/// residual in it is zero and no payload follows.
pub const ZERO_BLOCK_BITS: u32 = 1;

/// Header length up to and including `channel_modes`, before aliases and constants.
pub const HEADER_BASE_SIZE: usize = 27;

/// Offset of the channel section within the header.
pub const CHANNEL_SECTION_AT: usize = 26;

/// Every residual packed at the block's own fixed width. Fastest, larger.
pub const BLOCK_CODER_FIXED: u8 = 0;

/// Golomb-Rice with a per-block parameter. Smaller on predicted residuals.
pub const BLOCK_CODER_RICE: u8 = 1;

/// The same Rice codes with the parameter derived from a context instead of stored.
pub const BLOCK_CODER_CONTEXT: u8 = 2;

/// `flags` bit 0: an alphabet map section follows the channel plan.
pub const FLAG_ALPHABET_MAPS: u8 = 0x01;

/// Prediction is off: the block stream codes samples directly.
pub const FILTER_MODE_NONE: u8 = 0;

/// Adaptive per-row predictor with zigzagged residuals.
pub const FILTER_MODE_ADAPTIVE: u8 = 1;

/// The same five predictors and the same residuals, chosen per 8x8 block instead of per row.
pub const FILTER_MODE_BLOCK: u8 = 2;

/// A `u32` as four bytes, least significant first.
pub open spec fn le32(v: u32) -> Seq<u8> {
    seq![(v % 256) as u8, ((v / 256) % 256) as u8, ((v / 65536) % 256) as u8, (v / 16777216) as u8]
}

/// The `u32` stored least significant byte first at `at`.
pub open spec fn le32_at(b: Seq<u8>, at: int) -> u32 {
    (b[at] + 256 * b[at + 1] + 65536 * b[at + 2] + 16777216 * b[at + 3]) as u32
}

pub open spec fn magic_bytes() -> Seq<u8> {
    seq![0x42u8, 0x52u8, 0x50u8, 0x1Au8]
}

/// Byte 5: whether an alphabet section follows the channel plan.
pub open spec fn flags_for(alphabet: Seq<Option<Seq<u8>>>) -> u8 {
    if any_map(alphabet) {
        FLAG_ALPHABET_MAPS
    } else {
        0
    }
}

/// The bytes from `at` on, or none when `at` is past the end.
pub open spec fn tail_from(b: Seq<u8>, at: int) -> Seq<u8> {
    if at <= b.len() {
        b.subrange(at, b.len() as int)
    } else {
        Seq::empty()
    }
}

/// The first rule of the fixed part of the header that `b` breaks, if any.
pub open spec fn fixed_error(b: Seq<u8>) -> Option<BrpError> {
    if b.len() < HEADER_BASE_SIZE {
        Some(BrpError::HeaderTooShort { got: b.len() as usize, need: HEADER_BASE_SIZE })
    } else if b.subrange(0, 4) != magic_bytes() {
        Some(BrpError::BadMagic)
    } else if b[4] != VERSION {
        Some(BrpError::UnsupportedVersion { found: b[4], expected: VERSION })
    } else if b[5] & 0xFE != 0 {
        Some(BrpError::ReservedFlagsSet(b[5]))
    } else if !(1 <= b[14] <= 4) {
        Some(BrpError::InvalidChannelCount(b[14]))
    } else if b[15] != BIT_DEPTH {
        Some(BrpError::UnsupportedBitDepth(b[15]))
    } else if le32_at(b, 6) == 0 {
        Some(BrpError::ZeroDimension { what: "width" })
    } else if le32_at(b, 10) == 0 {
        Some(BrpError::ZeroDimension { what: "height" })
    } else if le32_at(b, 16) == 0 {
        Some(BrpError::ZeroDimension { what: "block_w" })
    } else if le32_at(b, 20) == 0 {
        Some(BrpError::ZeroDimension { what: "block_h" })
    } else if !len_fits(le32_at(b, 6), le32_at(b, 10), b[14]) {
        Some(BrpError::DimensionOverflow)
    } else if b[24] > FILTER_MODE_BLOCK {
        Some(BrpError::UnsupportedFilterMode(b[24]))
    } else if b[25] > BLOCK_CODER_CONTEXT {
        Some(BrpError::UnsupportedBlockCoder(b[25]))
    } else {
        None
    }
}

/// What parsing `b` as a header gives: the first rule the bytes break, or a header whose fields,
/// channel plan and alphabet maps are the ones `b` stores, and its length in bytes.
pub open spec fn parse_outcome(b: Seq<u8>, r: Result<(Header, usize), BrpError>) -> bool {
    match fixed_error(b) {
        Some(e) => r == Err::<(Header, usize), BrpError>(e),
        None => match parse_plan(b.subrange(26, b.len() as int), b[14]) {
            Err(e) => r == Err::<(Header, usize), BrpError>(e),
            Ok((modes, plen)) => if b[24] != FILTER_MODE_NONE && coded_list(
                modes,
                b[14] as nat,
            ).len() == 0 {
                r == Err::<(Header, usize), BrpError>(BrpError::FilterWithoutCodedChannels)
            } else if b[5] & FLAG_ALPHABET_MAPS == 0 {
                r matches Ok((h, n)) && h.wf() && h.fields_from(b)
                    && h.plan.spec_channels() == b[14] && h.plan.spec_modes() == modes
                    && h.alphabet.entries().len() == b[14] && !any_map(
                    h.alphabet.spec_values(),
                ) && n == 26 + plen
            } else {
                match parse_section(tail_from(b, 26 + plen as int), b[14] as nat) {
                    Err(e) => r == Err::<(Header, usize), BrpError>(e),
                    Ok((tables, slen)) => r matches Ok((h, n)) && h.wf() && h.fields_from(
                        b,
                    ) && h.plan.spec_channels() == b[14] && h.plan.spec_modes()
                        == modes && h.alphabet.entries().len() == b[14]
                        && tables.len() == b[14] && (forall|c: int|
                        0 <= c < b[14] ==> match (
                            #[trigger] h.alphabet.entries()[c],
                            tables[c],
                        ) {
                            (Some(m), Some(u)) => lists_used(m.values(), u),
                            (None, None) => true,
                            _ => false,
                        }) && n == 26 + plen + slen,
                }
            },
        },
    }
}

#[derive(Debug, Clone, PartialEq, Eq)]
pub struct Header {
    pub width: u32,
    pub height: u32,
    pub channels: u8,
    pub bit_depth: u8,
    pub block_w: u32,
    pub block_h: u32,
    /// [`FILTER_MODE_NONE`], [`FILTER_MODE_ADAPTIVE`] or [`FILTER_MODE_BLOCK`].
    pub filter_mode: u8,
    /// [`BLOCK_CODER_FIXED`], [`BLOCK_CODER_RICE`] or [`BLOCK_CODER_CONTEXT`].
    pub block_coder: u8,
    pub plan: ChannelPlan,
    /// One optional alphabet map per channel. Empty costs nothing in the file.
    pub alphabet: AlphabetMaps,
}

impl Header {
    /// What any header built from the library's parts satisfies.
    pub open spec fn wf(&self) -> bool {
        &&& self.plan.wf()
        &&& self.alphabet.wf()
        &&& self.alphabet.entries().len() <= 4
    }

    /// The 26 bytes before the channel section.
    pub open spec fn fixed_bytes(&self) -> Seq<u8> {
        magic_bytes() + seq![VERSION, flags_for(self.alphabet.spec_values())] + le32(self.width)
            + le32(self.height) + seq![self.channels, self.bit_depth] + le32(self.block_w) + le32(
            self.block_h,
        ) + seq![self.filter_mode, self.block_coder]
    }

    /// The serialized header.
    pub open spec fn spec_bytes(&self) -> Seq<u8> {
        self.fixed_bytes() + plan_bytes(self.plan.spec_channels(), self.plan.spec_modes())
            + section_bytes(self.alphabet.spec_values())
    }

    /// The header's fields are the ones `b` stores.
    pub open spec fn fields_from(&self, b: Seq<u8>) -> bool {
        &&& self.width == le32_at(b, 6)
        &&& self.height == le32_at(b, 10)
        &&& self.channels == b[14]
        &&& self.bit_depth == b[15]
        &&& self.block_w == le32_at(b, 16)
        &&& self.block_h == le32_at(b, 20)
        &&& self.filter_mode == b[24]
        &&& self.block_coder == b[25]
    }

    /// Serialized length of this header, in bytes.
    pub fn byte_len(&self) -> (n: usize)
        requires
            self.wf(),
        ensures
            n == self.spec_bytes().len(),
    {
        proof {
            lemma_plan_sizes(Seq::empty(), self.plan.spec_channels(), self.plan.spec_modes());
        }
        CHANNEL_SECTION_AT + self.plan.byte_len() + self.alphabet.byte_len()
    }

    /// Channels that appear in the block stream. May be zero.
    pub fn coded_channels(&self) -> (n: usize)
        requires
            self.wf(),
        ensures
            n == self.plan.spec_coded().len(),
    {
        self.plan.coded_count()
    }

    /// Ascending indices of the coded channels.
    pub fn coded_indices(&self) -> (r: CodedIndices)
        requires
            self.wf(),
        ensures
            r.wf(),
            r.spec_slots() == self.plan.spec_coded(),
    {
        self.plan.coded_indices()
    }

    pub fn has_alpha(&self) -> (b: bool)
        ensures
            b == (self.channels == 2 || self.channels == 4),
    {
        self.channels == 2 || self.channels == 4
    }

    pub fn write_to(&self, out: &mut Vec<u8>)
        requires
            self.wf(),
        ensures
            final(out)@ == old(out)@ + self.spec_bytes(),
    {
        let ghost start = out@;
        out.push(0x42);
        out.push(0x52);
        out.push(0x50);
        out.push(0x1A);
        out.push(VERSION);
        out.push(
            if self.alphabet.any() {
                FLAG_ALPHABET_MAPS
            } else {
                0
            },
        );
        push_le32(out, self.width);
        push_le32(out, self.height);
        out.push(self.channels);
        out.push(self.bit_depth);
        push_le32(out, self.block_w);
        push_le32(out, self.block_h);
        out.push(self.filter_mode);
        out.push(self.block_coder);
        proof {
            assert(out@ =~= start + self.fixed_bytes());
        }
        self.plan.write_to(out);
        self.alphabet.write_to(out);
        proof {
            assert(out@ =~= start + self.spec_bytes());
        }
    }

    /// Parses and fully validates a header, returning it with the number of bytes consumed.
    ///
    /// Every rule that concerns the header is enforced here, so the rest of the decoder can
    /// trust these fields.
    pub fn parse(bytes: &[u8]) -> (r: Result<(Self, usize), BrpError>)
        ensures
            parse_outcome(bytes@, r),
            r matches Ok((_, n)) ==> n <= bytes@.len(),
    {
        let ghost b = bytes@;
        if bytes.len() < HEADER_BASE_SIZE {
            return Err(BrpError::HeaderTooShort { got: bytes.len(), need: HEADER_BASE_SIZE });
        }
        if !(bytes[0] == 0x42 && bytes[1] == 0x52 && bytes[2] == 0x50 && bytes[3] == 0x1A) {
            proof {
                assert(b.subrange(0, 4) != magic_bytes()) by {
                    if b.subrange(0, 4) == magic_bytes() {
                        assert(b.subrange(0, 4)[0] == b[0]);
                        assert(b.subrange(0, 4)[1] == b[1]);
                        assert(b.subrange(0, 4)[2] == b[2]);
                        assert(b.subrange(0, 4)[3] == b[3]);
                    }
                }
            }
            return Err(BrpError::BadMagic);
        }
        proof {
            assert(b.subrange(0, 4) =~= magic_bytes());
        }
        let version = bytes[4];
        if version != VERSION {
            return Err(BrpError::UnsupportedVersion { found: version, expected: VERSION });
        }
        let flags = bytes[5];
        if flags & 0xFE != 0 {
            return Err(BrpError::ReservedFlagsSet(flags));
        }
        let width = read_le32(bytes, 6);
        let height = read_le32(bytes, 10);
        let channels = bytes[14];
        let bit_depth = bytes[15];
        let block_w = read_le32(bytes, 16);
        let block_h = read_le32(bytes, 20);
        if !(1 <= channels && channels <= 4) {
            return Err(BrpError::InvalidChannelCount(channels));
        }
        if bit_depth != BIT_DEPTH {
            return Err(BrpError::UnsupportedBitDepth(bit_depth));
        }
        if width == 0 {
            return Err(BrpError::ZeroDimension { what: "width" });
        }
        if height == 0 {
            return Err(BrpError::ZeroDimension { what: "height" });
        }
        if block_w == 0 {
            return Err(BrpError::ZeroDimension { what: "block_w" });
        }
        if block_h == 0 {
            return Err(BrpError::ZeroDimension { what: "block_h" });
        }
        match required_len(width, height, channels) {
            Ok(_) => {},
            Err(e) => {
                return Err(e);
            },
        }
        let filter_mode = bytes[24];
        if filter_mode > FILTER_MODE_BLOCK {
            return Err(BrpError::UnsupportedFilterMode(filter_mode));
        }
        let block_coder = bytes[25];
        if block_coder > BLOCK_CODER_CONTEXT {
            return Err(BrpError::UnsupportedBlockCoder(block_coder));
        }
        assert(fixed_error(b) == None::<BrpError>);
        let tail = vstd::slice::slice_subrange(bytes, CHANNEL_SECTION_AT, bytes.len());
        let (plan, plan_len) = match ChannelPlan::parse(tail, channels) {
            Ok(p) => p,
            Err(e) => {
                return Err(e);
            },
        };
        proof {
            lemma_parsed_plan_wf(tail@, channels);
            lemma_coded_list(plan.spec_modes(), channels as nat);
            lemma_plan_sizes(tail@, channels, plan.spec_modes());
        }
        if filter_mode != FILTER_MODE_NONE && plan.coded_count() == 0 {
            return Err(BrpError::FilterWithoutCodedChannels);
        }
        let at = CHANNEL_SECTION_AT + plan_len;
        if flags & FLAG_ALPHABET_MAPS == 0 {
            let alphabet = AlphabetMaps::none(channels as usize);
            proof {
                assert forall|c: int| 0 <= c < alphabet.spec_values().len() implies !(
                #[trigger] alphabet.spec_values()[c] is Some) by {
                    assert(alphabet.entries()[c] is None);
                }
            }
            let h = Header {
                width,
                height,
                channels,
                bit_depth,
                block_w,
                block_h,
                filter_mode,
                block_coder,
                plan,
                alphabet,
            };
            Ok((h, at))
        } else {
            let empty: &[u8] = &[];
            let rest = if at <= bytes.len() {
                vstd::slice::slice_subrange(bytes, at, bytes.len())
            } else {
                empty
            };
            assert(rest@ == tail_from(b, at as int));
            match AlphabetMaps::parse(rest, channels as usize) {
                Err(e) => Err(e),
                Ok((alphabet, alphabet_len)) => {
                    let h = Header {
                        width,
                        height,
                        channels,
                        bit_depth,
                        block_w,
                        block_h,
                        filter_mode,
                        block_coder,
                        plan,
                        alphabet,
                    };
                    Ok((h, at + alphabet_len))
                },
            }
        }
    }
}

fn push_le32(out: &mut Vec<u8>, v: u32)
    ensures
        final(out)@ == old(out)@ + le32(v),
{
    out.push((v % 256) as u8);
    out.push(((v / 256) % 256) as u8);
    out.push(((v / 65536) % 256) as u8);
    out.push((v / 16777216) as u8);
    assert(final(out)@ =~= old(out)@ + le32(v));
}

fn read_le32(bytes: &[u8], at: usize) -> (v: u32)
    requires
        at + 4 <= bytes@.len(),
    ensures
        v == le32_at(bytes@, at as int),
{
    bytes[at] as u32 + 256 * bytes[at + 1] as u32 + 65536 * bytes[at + 2] as u32 + 16777216
        * bytes[at + 3] as u32
}

/// A `u32` written least significant byte first reads back as itself.
pub proof fn lemma_le32_round_trip(v: u32, b: Seq<u8>, at: int)
    requires
        0 <= at,
        at + 4 <= b.len(),
        b.subrange(at, at + 4) == le32(v),
    ensures
        le32_at(b, at) == v,
{
    assert(b[at] == le32(v)[0]);
    assert(b[at + 1] == le32(v)[1]);
    assert(b[at + 2] == le32(v)[2]);
    assert(b[at + 3] == le32(v)[3]);
}

/// A valid header: one the format accepts, built from a plan and maps for its own channels.
pub open spec fn header_valid(h: Header) -> bool {
    &&& h.wf()
    &&& 1 <= h.channels <= 4
    &&& h.bit_depth == BIT_DEPTH
    &&& h.width > 0
    &&& h.height > 0
    &&& h.block_w > 0
    &&& h.block_h > 0
    &&& len_fits(h.width, h.height, h.channels)
    &&& h.filter_mode <= FILTER_MODE_BLOCK
    &&& h.block_coder <= BLOCK_CODER_CONTEXT
    &&& h.plan.spec_channels() == h.channels
    &&& (h.filter_mode != FILTER_MODE_NONE ==> h.plan.spec_coded().len() > 0)
    &&& h.alphabet.entries().len() == h.channels
}

/// The fixed part of a valid header passes every check and reads back as the header's fields.
proof fn lemma_fixed_round_trip(h: Header, b: Seq<u8>)
    requires
        header_valid(h),
        b.len() >= HEADER_BASE_SIZE,
        b.subrange(0, 26) == h.fixed_bytes(),
    ensures
        fixed_error(b) == None::<BrpError>,
        h.fields_from(b),
        b[5] & FLAG_ALPHABET_MAPS == flags_for(h.alphabet.spec_values()),
{
    let fixed = h.fixed_bytes();
    assert(fixed.len() == 26);
    assert forall|k: int| 0 <= k < 26 implies b[k] == #[trigger] fixed[k] by {
        assert(b.subrange(0, 26)[k] == b[k]);
    }
    let p0 = magic_bytes() + seq![VERSION, flags_for(h.alphabet.spec_values())];
    let p1 = p0 + le32(h.width);
    let p2 = p1 + le32(h.height);
    let p3 = p2 + seq![h.channels, h.bit_depth];
    let p4 = p3 + le32(h.block_w);
    let p5 = p4 + le32(h.block_h);
    assert(fixed == p5 + seq![h.filter_mode, h.block_coder]);
    assert(p0.len() == 6 && p1.len() == 10 && p2.len() == 14 && p3.len() == 16 && p4.len() == 20
        && p5.len() == 24);
    assert(b.subrange(0, 4) =~= magic_bytes()) by {
        assert forall|k: int| 0 <= k < 4 implies b[k] == magic_bytes()[k] by {
            assert(fixed[k] == p0[k]);
        }
    }
    assert(b.subrange(6, 10) =~= le32(h.width)) by {
        assert forall|k: int| 0 <= k < 4 implies b[6 + k] == le32(h.width)[k] by {
            assert(fixed[6 + k] == p1[6 + k]);
        }
    }
    assert(b.subrange(10, 14) =~= le32(h.height)) by {
        assert forall|k: int| 0 <= k < 4 implies b[10 + k] == le32(h.height)[k] by {
            assert(fixed[10 + k] == p2[10 + k]);
        }
    }
    assert(b.subrange(16, 20) =~= le32(h.block_w)) by {
        assert forall|k: int| 0 <= k < 4 implies b[16 + k] == le32(h.block_w)[k] by {
            assert(fixed[16 + k] == p4[16 + k]);
        }
    }
    assert(b.subrange(20, 24) =~= le32(h.block_h)) by {
        assert forall|k: int| 0 <= k < 4 implies b[20 + k] == le32(h.block_h)[k] by {
            assert(fixed[20 + k] == p5[20 + k]);
        }
    }
    assert(fixed[14] == p3[14] && fixed[15] == p3[15] && fixed[4] == p0[4] && fixed[5] == p0[5]);
    assert(fixed[24] == h.filter_mode && fixed[25] == h.block_coder);
    assert(b[4] == VERSION && b[5] == flags_for(h.alphabet.spec_values()));
    assert(b[14] == h.channels && b[15] == h.bit_depth);
    assert(b[24] == h.filter_mode && b[25] == h.block_coder);
    lemma_le32_round_trip(h.width, b, 6);
    lemma_le32_round_trip(h.height, b, 10);
    lemma_le32_round_trip(h.block_w, b, 16);
    lemma_le32_round_trip(h.block_h, b, 20);
    let f = b[5];
    assert(f == flags_for(h.alphabet.spec_values()));
    assert(f == 0 || f == 1);
    assert(f == 0 ==> f & 0xFE == 0 && f & 1 == f) by (bit_vector);
    assert(f == 1 ==> f & 0xFE == 0 && f & 1 == f) by (bit_vector);
}

/// A header parses back to itself: the written bytes pass every check, and the channel plan and
/// the alphabet section come back as they were written, whatever follows the header.
#[verifier::spinoff_prover]
#[verifier::rlimit(40)]
pub proof fn lemma_header_round_trip(h: Header, rest: Seq<u8>)
    requires
        header_valid(h),
    ensures
        ({
            let b = h.spec_bytes() + rest;
            let plen = plan_bytes(h.channels, h.plan.spec_modes()).len();
            &&& fixed_error(b) == None::<BrpError>
            &&& h.fields_from(b)
            &&& b[5] & FLAG_ALPHABET_MAPS == flags_for(h.alphabet.spec_values())
            &&& parse_plan(b.subrange(26, b.len() as int), h.channels) == Ok::<
                (Seq<crate::channels::ChannelMode>, nat),
                BrpError,
            >((h.plan.spec_modes(), plen))
            &&& any_map(h.alphabet.spec_values()) ==> parse_section(
                tail_from(b, 26 + plen as int),
                h.channels as nat,
            ) == Ok::<(Seq<Option<Seq<bool>>>, nat), BrpError>(
                (
                    tables_from(h.alphabet.spec_values(), 0),
                    section_bytes(h.alphabet.spec_values()).len(),
                ),
            )
        }),
{
    let b = h.spec_bytes() + rest;
    let pb = plan_bytes(h.channels, h.plan.spec_modes());
    let sb = section_bytes(h.alphabet.spec_values());
    assert(b.subrange(0, 26) =~= h.fixed_bytes());
    assert(pb.len() >= 1);
    lemma_fixed_round_trip(h, b);
    lemma_plan_round_trip(h.channels, h.plan.spec_modes(), sb + rest);
    assert(b.subrange(26, b.len() as int) =~= pb + (sb + rest));
    if any_map(h.alphabet.spec_values()) {
        assert forall|c: int|
            0 <= c < h.alphabet.spec_values().len() implies (
            #[trigger] h.alphabet.spec_values()[c] matches Some(v) ==> valid_values(v)) by {
            assert(h.alphabet.entries()[c] matches Some(m) ==> m.wf());
            if let Some(m) = h.alphabet.entries()[c] {
                m.lemma_wf();
            }
        }
        lemma_section_round_trip(h.alphabet.spec_values(), rest);
        assert(tail_from(b, 26 + pb.len() as int) =~= sb + rest);
    }
}


/// Two headers that agree on every field, on the channel plan and on the values each channel's
/// map lists: they serialize alike and describe the same decode.
pub open spec fn same_header(a: Header, b: Header) -> bool {
    &&& a.width == b.width
    &&& a.height == b.height
    &&& a.channels == b.channels
    &&& a.bit_depth == b.bit_depth
    &&& a.block_w == b.block_w
    &&& a.block_h == b.block_h
    &&& a.filter_mode == b.filter_mode
    &&& a.block_coder == b.block_coder
    &&& a.plan.spec_channels() == b.plan.spec_channels()
    &&& a.plan.spec_modes() == b.plan.spec_modes()
    &&& a.alphabet.spec_values() == b.alphabet.spec_values()
}

/// Two outcomes that both fit [`parse_outcome`] for the same bytes fail alike, or both succeed
/// with headers whose fields are the ones the bytes store.
pub proof fn lemma_parse_outcome_unique(
    b: Seq<u8>,
    r1: Result<(Header, usize), BrpError>,
    r2: Result<(Header, usize), BrpError>,
)
    requires
        parse_outcome(b, r1),
        parse_outcome(b, r2),
    ensures
        (r1 is Ok) == (r2 is Ok),
        r1 is Err ==> r1 == r2,
        r1 matches Ok((h, _)) ==> h.fields_from(b),
        r2 matches Ok((h, _)) ==> h.fields_from(b),
{
}

/// Parsing bytes that start with a valid header's serialization finds that header, whatever
/// follows it, and ends where the header ends.
#[verifier::spinoff_prover]
#[verifier::rlimit(40)]
pub proof fn lemma_parse_recovers(h0: Header, rest: Seq<u8>, r: Result<(Header, usize), BrpError>)
    requires
        header_valid(h0),
        parse_outcome(h0.spec_bytes() + rest, r),
    ensures
        r matches Ok((h, n)) && h.wf() && same_header(h, h0) && n == h0.spec_bytes().len(),
{
    let b = h0.spec_bytes() + rest;
    let vals = h0.alphabet.spec_values();
    lemma_header_round_trip(h0, rest);
    lemma_coded_list(h0.plan.spec_modes(), h0.channels as nat);
    assert(h0.spec_bytes().len() == 26 + plan_bytes(h0.channels, h0.plan.spec_modes()).len()
        + section_bytes(vals).len());
    if any_map(vals) {
        assert(b[5] & FLAG_ALPHABET_MAPS != 0);
        let (h, n) = r->Ok_0;
        assert forall|c: int| 0 <= c < vals.len() implies #[trigger] h.alphabet.spec_values()[c]
            == vals[c] by {
            assert(0 <= c < b[14]);
            match h0.alphabet.entries()[c] {
                Some(m0) => {
                    assert(m0.wf());
                    m0.lemma_wf();
                    let u = used_table(m0.values());
                    assert(tables_from(vals, 0)[c] == Some(u));
                    let m = h.alphabet.entries()[c]->Some_0;
                    assert(lists_used(m.values(), u));
                    assert(lists_used(m0.values(), u)) by {
                        assert forall|v: u8| #[trigger] m0.values().contains(v) == u[v as int] by {}
                    }
                    lemma_lists_used_unique(m0.values(), u);
                },
                None => {
                    assert(tables_from(vals, 0)[c] is None);
                },
            }
        }
        assert(h.alphabet.spec_values() =~= vals);
    } else {
        assert(flags_for(vals) == 0);
        let (h, n) = r->Ok_0;
        assert forall|c: int| 0 <= c < vals.len() implies #[trigger] h.alphabet.spec_values()[c]
            == vals[c] by {
            assert(!(vals[c] is Some));
            assert(!(h.alphabet.spec_values()[c] is Some));
        }
        assert(h.alphabet.spec_values() =~= vals);
        assert(section_bytes(vals) =~= Seq::<u8>::empty());
    }
}


/// Bytes begin with at most one valid header, up to the internals of its maps: two valid headers
/// that both start `b` agree on every field, on the plan and on the values each map lists.
#[verifier::spinoff_prover]
#[verifier::rlimit(40)]
pub proof fn lemma_header_unique(h1: Header, h2: Header, b: Seq<u8>)
    requires
        header_valid(h1),
        header_valid(h2),
        h1.spec_bytes().len() <= b.len(),
        b.subrange(0, h1.spec_bytes().len() as int) == h1.spec_bytes(),
        h2.spec_bytes().len() <= b.len(),
        b.subrange(0, h2.spec_bytes().len() as int) == h2.spec_bytes(),
    ensures
        same_header(h1, h2),
        h1.spec_bytes() == h2.spec_bytes(),
{
    let n1 = h1.spec_bytes().len() as int;
    let n2 = h2.spec_bytes().len() as int;
    let r1 = b.subrange(n1, b.len() as int);
    let r2 = b.subrange(n2, b.len() as int);
    assert(b =~= h1.spec_bytes() + r1);
    assert(b =~= h2.spec_bytes() + r2);
    lemma_header_round_trip(h1, r1);
    lemma_header_round_trip(h2, r2);
    let v1 = h1.alphabet.spec_values();
    let v2 = h2.alphabet.spec_values();
    assert(h1.plan.spec_modes() == h2.plan.spec_modes());
    assert(flags_for(v1) == flags_for(v2));
    if any_map(v1) {
        assert(any_map(v2));
        let t1 = tables_from(v1, 0);
        let t2 = tables_from(v2, 0);
        assert(t1 == t2);
        assert forall|c: int| 0 <= c < v1.len() implies #[trigger] v1[c] == v2[c] by {
            assert(t1[c] == t2[c]);
            match h1.alphabet.entries()[c] {
                Some(m1) => {
                    let m2 = h2.alphabet.entries()[c]->Some_0;
                    m1.lemma_wf();
                    m2.lemma_wf();
                    let u = used_table(m1.values());
                    assert(lists_used(m1.values(), u)) by {
                        assert forall|v: u8| #[trigger] m1.values().contains(v) == u[v as int] by {}
                    }
                    assert(lists_used(m2.values(), u)) by {
                        assert forall|v: u8| #[trigger] m2.values().contains(v) == u[v as int] by {
                            assert(used_table(m2.values())[v as int] == u[v as int]);
                        }
                    }
                    lemma_lists_used_unique(m1.values(), u);
                },
                None => {},
            }
        }
        assert(v1 =~= v2);
    } else {
        assert(!any_map(v2));
        assert forall|c: int| 0 <= c < v1.len() implies #[trigger] v1[c] == v2[c] by {
            assert(!(v1[c] is Some));
            assert(!(v2[c] is Some));
        }
        assert(v1 =~= v2);
    }
    assert(h1.fixed_bytes() == h2.fixed_bytes());
}

} // verus!
