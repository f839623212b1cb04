//! What a whole file holds, how a decoder turns it back into samples, and the round trip
//! between the two.

use crate::alphabet::{map_at, rank_invalid, ranked, unranked, AlphabetMap};
use crate::bits::{bits_of, byte_bits, padded};
use crate::block::BlockGrid;
use crate::channels::{planned_modes, ChannelMode, ChannelOptions};
use crate::encode::grid_bits;
use crate::stream::{is_prefix, lemma_prefix_append, lemma_prefix_trans};
use crate::header::{
    header_valid, same_header, Header, BLOCK_CODER_FIXED, BLOCK_CODER_RICE, FILTER_MODE_ADAPTIVE,
    FILTER_MODE_BLOCK,
};
use crate::image::RawImage;
use crate::predict::{
    geometry_ok, is_coded, is_residual_plane, residual_at, spec_units, FilterLayout, FILTER_KINDS,
};
use vstd::prelude::*;

verus! {

/// The predictor codes, three bits each.
pub open spec fn kind_bits(kinds: Seq<u8>) -> Seq<bool>
    decreases kinds.len(),
{
    if kinds.len() == 0 {
        Seq::empty()
    } else {
        kind_bits(kinds.drop_last()) + bits_of(kinds.last() as nat, 3)
    }
}

pub proof fn lemma_kind_bits_len(kinds: Seq<u8>)
    ensures
        kind_bits(kinds).len() == 3 * kinds.len(),
    decreases kinds.len(),
{
    if kinds.len() > 0 {
        lemma_kind_bits_len(kinds.drop_last());
        crate::bits::lemma_bits_of_len(kinds.last() as nat, 3);
    }
}

/// The codes of the first `u` units start the codes of all of them, and the next unit's code
/// follows them.
pub proof fn lemma_kind_bits_prefix(kinds: Seq<u8>, u: nat)
    requires
        u < kinds.len(),
    ensures
        kind_bits(kinds.take(u as int + 1)) == kind_bits(kinds.take(u as int)) + bits_of(
            kinds[u as int] as nat,
            3,
        ),
        is_prefix(kind_bits(kinds.take(u as int + 1)), kind_bits(kinds)),
    decreases kinds.len() - u,
{
    assert(kinds.take(u as int + 1).drop_last() =~= kinds.take(u as int));
    if u + 1 == kinds.len() {
        assert(kinds.take(u as int + 1) =~= kinds);
        assert(kind_bits(kinds).subrange(0, kind_bits(kinds).len() as int) =~= kind_bits(kinds));
    } else {
        lemma_kind_bits_prefix(kinds, u + 1);
        lemma_prefix_append(kind_bits(kinds.take(u as int + 1)), bits_of(kinds[u as int + 1] as nat, 3));
        lemma_prefix_trans(
            kind_bits(kinds.take(u as int + 1)),
            kind_bits(kinds.take(u as int + 2)),
            kind_bits(kinds),
        );
    }
}

/// The prediction layout a header's filter mode selects, or `None` when prediction is off.
pub open spec fn layout_of(mode: u8) -> Option<FilterLayout> {
    if mode == FILTER_MODE_ADAPTIVE {
        Some(FilterLayout::Row)
    } else if mode == FILTER_MODE_BLOCK {
        Some(FilterLayout::Block)
    } else {
        None
    }
}

/// The block grid a header describes.
pub open spec fn header_grid(h: Header) -> BlockGrid {
    BlockGrid::spec_new(h.width, h.height, h.block_w, h.block_h)
}

/// How many predictor codes a header calls for.
pub open spec fn unit_count(h: Header) -> nat {
    match layout_of(h.filter_mode) {
        Some(l) => spec_units(l, h.width as nat, h.height as nat),
        None => 0,
    }
}

/// The bits after a header: the predictor codes, then every block of plane `d`.
pub open spec fn body_bits(h: Header, kinds: Seq<u8>, d: Seq<u8>) -> Seq<bool> {
    kind_bits(kinds) + crate::ctx_stream::blocks_bits(
        header_grid(h),
        d,
        h.channels as int,
        h.plan.spec_coded(),
        h.block_coder,
    )
}

/// `bytes` is a file as the encoder writes it: the header `h`, then, when `h` codes any channel,
/// the predictor codes `kinds` and the blocks of the residual plane `d`, padded to a whole byte.
pub open spec fn file_holds(bytes: Seq<u8>, h: Header, kinds: Seq<u8>, d: Seq<u8>) -> bool {
    let n = h.spec_bytes().len();
    &&& header_valid(h)
    &&& d.len() == h.width * h.height * h.channels
    &&& kinds.len() == unit_count(h)
    &&& forall|u: int| 0 <= u < kinds.len() ==> #[trigger] kinds[u] < FILTER_KINDS
    &&& n <= bytes.len()
    &&& bytes.subrange(0, n as int) == h.spec_bytes()
    &&& if h.plan.spec_coded().len() == 0 {
        bytes.len() == n
    } else {
        byte_bits(bytes.subrange(n as int, bytes.len() as int)) == padded(body_bits(h, kinds, d))
    }
}

/// The plane a decoder assembles before undoing prediction: the stream's residuals on coded
/// channels, each constant channel's value, and zero on aliased channels.
pub open spec fn assembled(h: Header, d: Seq<u8>) -> Seq<u8> {
    let stride = h.channels as int;
    Seq::new(
        d.len(),
        |i: int|
            if is_coded(h.plan.spec_coded(), i, stride) {
                d[i]
            } else {
                match h.plan.spec_modes()[i % stride] {
                    ChannelMode::Constant(v) => v,
                    _ => 0u8,
                }
            },
    )
}

/// The samples whose residuals under `kinds` are `res`, or `res` itself when prediction is off.
pub open spec fn unpredicted(h: Header, kinds: Seq<u8>, res: Seq<u8>) -> Seq<u8> {
    match layout_of(h.filter_mode) {
        Some(l) => choose|src: Seq<u8>|
            is_residual_plane(
                l,
                kinds,
                src,
                res,
                h.width as int,
                h.channels as int,
                h.plan.spec_coded(),
            ),
        None => res,
    }
}

/// `s` with each aliased channel's samples copied from its target's.
pub open spec fn aliases_filled(modes: Seq<ChannelMode>, stride: int, s: Seq<u8>) -> Seq<u8> {
    Seq::new(
        s.len(),
        |i: int|
            match modes[i % stride] {
                ChannelMode::Alias(t) => s[i - i % stride + t],
                _ => s[i],
            },
    )
}

/// The ranks a decoder recovers from `(h, kinds, d)`, before the alphabet maps are undone.
pub open spec fn restored_ranks(h: Header, kinds: Seq<u8>, d: Seq<u8>) -> Seq<u8> {
    aliases_filled(h.plan.spec_modes(), h.channels as int, unpredicted(h, kinds, assembled(h, d)))
}

/// Every rank of `s` names a value of its channel's map.
pub open spec fn ranks_valid(h: Header, s: Seq<u8>) -> bool {
    forall|i: int|
        0 <= i < s.len() ==> !rank_invalid(h.alphabet.entries(), h.channels as nat, i, #[trigger] s[i])
}

/// The samples a decoder recovers from `(h, kinds, d)`.
pub open spec fn restored(h: Header, kinds: Seq<u8>, d: Seq<u8>) -> Seq<u8> {
    let s = restored_ranks(h, kinds, d);
    Seq::new(s.len(), |i: int| unranked(h.alphabet.entries(), h.channels as nat, i, s[i]))
}

/// The image's samples renumbered by the header's alphabet maps.
pub open spec fn ranked_plane(h: Header, data: Seq<u8>) -> Seq<u8> {
    Seq::new(data.len(), |i: int| ranked(h.alphabet.entries(), h.channels as nat, i, data[i]))
}

/// `(h, kinds, d)` is what the encoder makes of an image's samples `data` under the channel
/// options `copts`: the header carries the image's shape and alphabet maps that cover every
/// sample, the channel plan is the one planned from the renumbered samples, and `d` is their
/// residual plane under `kinds`, or the renumbered samples themselves when prediction is off.
pub open spec fn encodes(data: Seq<u8>, copts: ChannelOptions, h: Header, kinds: Seq<u8>, d: Seq<u8>) -> bool {
    let stride = h.channels as nat;
    let m = ranked_plane(h, data);
    &&& data.len() == h.width * h.height * h.channels
    &&& forall|i: int|
        0 <= i < data.len() ==> (map_at(h.alphabet.entries(), stride, i) matches Some(a)
            ==> a.values().contains(#[trigger] data[i]))
    &&& forall|c: int|
        0 <= c < h.alphabet.entries().len() ==> (#[trigger] h.alphabet.entries()[c] matches Some(a)
            ==> a.wf())
    &&& h.plan.spec_modes() == planned_modes(m, h.channels, copts)
    &&& match layout_of(h.filter_mode) {
        Some(l) => is_residual_plane(
            l,
            kinds,
            m,
            d,
            h.width as int,
            h.channels as int,
            h.plan.spec_coded(),
        ),
        None => d == m,
    }
}

/// Decoding what the encoder wrote gives back the samples it was given: the ranks a decoder
/// recovers are all valid, and undoing them yields the image.
pub proof fn lemma_decode_inverts_encode(
    data: Seq<u8>,
    copts: ChannelOptions,
    h: Header,
    kinds: Seq<u8>,
    d: Seq<u8>,
)
    requires
        header_valid(h),
        encodes(data, copts, h, kinds, d),
    ensures
        ranks_valid(h, restored_ranks(h, kinds, d)),
        restored(h, kinds, d) == data,
{
    let stride = h.channels as int;
    let sn = h.channels as nat;
    let slots = h.plan.spec_coded();
    let modes = h.plan.spec_modes();
    let m = ranked_plane(h, data);
    let a = assembled(h, d);
    let w = h.width as int;
    crate::channels::lemma_coded_list(modes, sn);
    // Away from prediction, the assembled plane already holds the renumbered samples wherever a
    // channel is coded or constant.
    assert forall|i: int| 0 <= i < m.len() && !is_coded(slots, i, stride) implies (#[trigger] a[i])
        == (match modes[i % stride] {
        ChannelMode::Constant(v) => v,
        _ => 0u8,
    }) by {}
    // The samples prediction is undone into: the renumbered samples on coded channels, the
    // assembled plane elsewhere.
    let x = Seq::new(m.len(), |i: int| if is_coded(slots, i, stride) { m[i] } else { a[i] });
    assert(unpredicted(h, kinds, a) == x) by {
        match layout_of(h.filter_mode) {
            Some(l) => {
                assert(geometry_ok(x.len(), h.width as nat, h.height as nat, sn, slots)) by {
                    assert forall|s: int| 0 <= s < slots.len() implies slots[s] < sn by {
                        assert(slots.contains(slots[s]));
                    }
                }
                assert forall|i: int| 0 <= i < x.len() implies a[i] == #[trigger] residual_at(
                    l,
                    kinds,
                    x,
                    i,
                    w,
                    stride,
                    slots,
                ) by {
                    if is_coded(slots, i, stride) {
                        crate::predict::lemma_residual_on_coded(l, kinds, x, m, i, w, stride, slots);
                    }
                }
                assert(is_residual_plane(l, kinds, x, a, w, stride, slots));
                let chosen = unpredicted(h, kinds, a);
                assert(is_residual_plane(l, kinds, chosen, a, w, stride, slots));
                crate::predict::lemma_residuals_determine_source(
                    l,
                    kinds,
                    x,
                    chosen,
                    a,
                    h.width as nat,
                    h.height as nat,
                    sn,
                    slots,
                );
            },
            None => {
                assert forall|i: int| 0 <= i < x.len() implies x[i] == a[i] by {
                    if !is_coded(slots, i, stride) {
                        crate::channels::lemma_modes_faithful(m, h.channels, copts, i);
                    }
                }
                assert(x =~= a);
            },
        }
    }
    let r = restored_ranks(h, kinds, d);
    assert forall|i: int| 0 <= i < m.len() implies #[trigger] r[i] == m[i] by {
        crate::channels::lemma_modes_faithful(m, h.channels, copts, i);
        let c = i % stride;
        match modes[c] {
            ChannelMode::Alias(t) => {
                let j = i - c + t;
                let q = i / stride;
                vstd::arithmetic::div_mod::lemma_fundamental_div_mod(i, stride);
                vstd::arithmetic::div_mod::lemma_div_pos_is_pos(i, stride);
                assert(i - c == stride * q);
                assert(stride * q >= 0) by (nonlinear_arith)
                    requires
                        stride > 0,
                        q >= 0,
                ;
                assert(0 <= j < i);
                assert(j == stride * q + t);
                vstd::arithmetic::div_mod::lemma_mod_multiples_vanish(q, t as int, stride);
                vstd::arithmetic::div_mod::lemma_small_mod(t as nat, stride as nat);
                assert(j % stride == t);
                assert(modes[t as int] == ChannelMode::Coded);
                assert(slots.contains(t as usize));
            },
            ChannelMode::Constant(v) => {
                assert(!slots.contains(c as usize));
            },
            ChannelMode::Coded => {
                assert(slots.contains(c as usize));
            },
        }
    }
    crate::alphabet::lemma_unmapping_restores(h.alphabet.entries(), sn, data);
    assert(restored(h, kinds, d) =~= data);
}


/// Under two headers that agree on their fields, plan and map values, a channel's map ranks,
/// validates and unranks alike.
proof fn lemma_same_maps(e1: Seq<Option<AlphabetMap>>, e2: Seq<Option<AlphabetMap>>, stride: nat)
    requires
        crate::alphabet::values_of(e1) == crate::alphabet::values_of(e2),
        stride > 0,
    ensures
        forall|i: int, r: u8|
            #[trigger] rank_invalid(e1, stride, i, r) == rank_invalid(e2, stride, i, r),
        forall|i: int, r: u8| #[trigger] unranked(e1, stride, i, r) == unranked(e2, stride, i, r),
{
    let v1 = crate::alphabet::values_of(e1);
    let v2 = crate::alphabet::values_of(e2);
    assert(e1.len() == v1.len() && e2.len() == v2.len());
    assert forall|i: int, r: u8| #[trigger] rank_invalid(e1, stride, i, r) == rank_invalid(
        e2,
        stride,
        i,
        r,
    ) && unranked(e1, stride, i, r) == unranked(e2, stride, i, r) by {
        let c = i % (stride as int);
        if c < e1.len() {
            assert(v1[c] == v2[c]);
        }
    }
    assert forall|i: int, r: u8| #[trigger] unranked(e1, stride, i, r) == unranked(e2, stride, i, r) by {
        assert(rank_invalid(e1, stride, i, r) == rank_invalid(e2, stride, i, r));
    }
}

/// Two headers that agree on their fields, plan and map values serialize alike and decode a
/// body alike.
pub proof fn lemma_same_header_decodes_alike(h1: Header, h2: Header, kinds: Seq<u8>, d: Seq<u8>)
    requires
        same_header(h1, h2),
        h1.channels > 0,
    ensures
        h1.spec_bytes() == h2.spec_bytes(),
        h1.plan.spec_coded() == h2.plan.spec_coded(),
        unit_count(h1) == unit_count(h2),
        body_bits(h1, kinds, d) == body_bits(h2, kinds, d),
        assembled(h1, d) == assembled(h2, d),
        restored_ranks(h1, kinds, d) == restored_ranks(h2, kinds, d),
        ranks_valid(h1, restored_ranks(h1, kinds, d)) == ranks_valid(
            h2,
            restored_ranks(h2, kinds, d),
        ),
        restored(h1, kinds, d) == restored(h2, kinds, d),
{
    let e1 = h1.alphabet.entries();
    let e2 = h2.alphabet.entries();
    let sn = h1.channels as nat;
    lemma_same_maps(e1, e2, sn);
    assert(h1.fixed_bytes() == h2.fixed_bytes());
    assert(assembled(h1, d) =~= assembled(h2, d));
    let s = restored_ranks(h1, kinds, d);
    assert(restored(h1, kinds, d) =~= restored(h2, kinds, d)) by {
        assert forall|i: int| 0 <= i < s.len() implies #[trigger] restored(h1, kinds, d)[i]
            == restored(h2, kinds, d)[i] by {
            assert(unranked(e1, sn, i, s[i]) == unranked(e2, sn, i, s[i]));
        }
    }
    assert(ranks_valid(h1, s) == ranks_valid(h2, s)) by {
        assert forall|i: int| 0 <= i < s.len() implies #[trigger] rank_invalid(e1, sn, i, s[i])
            == rank_invalid(e2, sn, i, s[i]) by {}
    }
}


/// Predictor codes read back unambiguously: two code lists of one length with the same bits are
/// the same list.
pub proof fn lemma_kind_bits_unique(a: Seq<u8>, b: Seq<u8>)
    requires
        a.len() == b.len(),
        kind_bits(a) == kind_bits(b),
        forall|u: int| 0 <= u < a.len() ==> #[trigger] a[u] < FILTER_KINDS,
        forall|u: int| 0 <= u < b.len() ==> #[trigger] b[u] < FILTER_KINDS,
    ensures
        a == b,
    decreases a.len(),
{
    if a.len() > 0 {
        let n = a.len() - 1;
        let ka = kind_bits(a.drop_last());
        let kb = kind_bits(b.drop_last());
        let la = bits_of(a.last() as nat, 3);
        let lb = bits_of(b.last() as nat, 3);
        lemma_kind_bits_len(a.drop_last());
        lemma_kind_bits_len(b.drop_last());
        crate::bits::lemma_bits_of_len(a.last() as nat, 3);
        crate::bits::lemma_bits_of_len(b.last() as nat, 3);
        assert(ka =~= (ka + la).subrange(0, 3 * n));
        assert(kb =~= (kb + lb).subrange(0, 3 * n));
        assert(la =~= (ka + la).subrange(3 * n, 3 * n + 3));
        assert(lb =~= (kb + lb).subrange(3 * n, 3 * n + 3));
        lemma_kind_bits_unique(a.drop_last(), b.drop_last());
        crate::bits::lemma_bits_val_of(a.last() as nat, 3);
        crate::bits::lemma_bits_val_of(b.last() as nat, 3);
        vstd::arithmetic::power2::lemma2_to64();
        assert(a.last() < 8 && b.last() < 8);
        assert(a.last() == b.last());
        assert(a =~= a.drop_last().push(a.last()));
        assert(b =~= b.drop_last().push(b.last()));
    }
}


/// Decoding what the encoder wrote gives back the image, unless the decoder cannot allocate its
/// samples: `b` is a file written from `img` (the encoder's promise), and `r` is what decoding `b`
/// under a limit of at least the image's size returns (the decoder's promise).
pub proof fn lemma_round_trip(
    b: Seq<u8>,
    img: RawImage,
    opts: crate::encode::EncodeOptions,
    layout: Option<FilterLayout>,
    limit: usize,
    r: Result<RawImage, crate::error::BrpError>,
)
    requires
        img.wf(),
        crate::encode::written_from(b, img, opts, layout),
        img.spec_data().len() <= limit,
        forall|h: Header, kinds: Seq<u8>, d: Seq<u8>|
            #[trigger] file_holds(b, h, kinds, d) && h.width * h.height * h.channels <= limit
                ==> crate::decode::decodes_to(r, h, kinds, d),
    ensures
        match r {
            Ok(out) => {
                &&& out.spec_width() == img.spec_width()
                &&& out.spec_height() == img.spec_height()
                &&& out.spec_channels() == img.spec_channels()
                &&& out.spec_data() == img.spec_data()
            },
            Err(e) => match e {
                crate::error::BrpError::AllocationFailed { bytes } => bytes == img.spec_data().len(),
                crate::error::BrpError::ImageTooLarge { .. } => img.spec_data().len() > u64::MAX / 64,
                _ => false,
            },
        },
{
    img.lemma_wf();
    let (h, kinds, d) = choose|h: Header, kinds: Seq<u8>, d: Seq<u8>|
        {
            &&& #[trigger] file_holds(b, h, kinds, d)
            &&& encodes(img.spec_data(), opts.channels, h, kinds, d)
            &&& h.width == img.spec_width()
            &&& h.height == img.spec_height()
            &&& h.channels == img.spec_channels()
            &&& (h.block_w, h.block_h) == crate::encode::block_size_of(img, opts)
            &&& h.filter_mode == if h.plan.spec_coded().len() == 0 {
                crate::header::FILTER_MODE_NONE
            } else {
                match layout {
                    Some(l) => l.spec_mode(),
                    None => crate::header::FILTER_MODE_NONE,
                }
            }
            &&& h.block_coder == if h.plan.spec_coded().len() == 0 {
                BLOCK_CODER_FIXED
            } else {
                crate::encode::coder_for(opts, header_grid(h), d, h.channels as int, h.plan.spec_coded())
            }
        };
    lemma_decode_inverts_encode(img.spec_data(), opts.channels, h, kinds, d);
    assert(crate::decode::decodes_to(r, h, kinds, d));
}

} // verus!
