//! Whole-image alphabet reduction: if a channel never uses some of its 256 values, renumber the
//! ones it does use so they are contiguous.
//!
//! A channel holding only 0 and 255 spans the whole byte range, so stage 2 gives it an 8-bit width
//! code and Rice gives it long codes, even though it carries one bit of information per sample.
//! Renumbering the present values to `0..distinct` collapses that. The transform is a rank map:
//! the `k`-th smallest present value becomes `k`, which keeps the order and therefore keeps the
//! image's structure intact for prediction.
//!
//! It is not free, and not always a win. The map has to be stored, and the residuals BRP codes
//! are differences modulo 256: shrinking the alphabet shortens the circle those differences live
//! on, so a difference that used to wrap cheaply can become a larger one.

use crate::alphabet::{
    ascending, channel_used, channel_uses, lists_used, rank_tables, rank_tables_of, scan_channel,
};
use crate::error::BrpError;
use crate::image::RawImage;
use vstd::prelude::*;

verus! {

/// How many entries of `s` in `a..b` are set.
pub open spec fn count_set(s: Seq<bool>, a: int, b: int) -> nat
    decreases b - a,
{
    if b <= a {
        0
    } else {
        count_set(s, a, b - 1) + if s[b - 1] {
            1nat
        } else {
            0nat
        }
    }
}

/// The first set entry at or after `i`, or 256 when there is none.
pub open spec fn first_set(s: Seq<bool>, i: int) -> int
    decreases 256 - i,
{
    if i >= 256 {
        256
    } else if s[i] {
        i
    } else {
        first_set(s, i + 1)
    }
}

/// The last set entry before `i`, or -1 when there is none.
pub open spec fn last_set(s: Seq<bool>, i: int) -> int
    decreases i,
{
    if i <= 0 {
        -1
    } else if s[i - 1] {
        i - 1
    } else {
        last_set(s, i - 1)
    }
}

/// Lowest and highest value a census marks, or `None` when it marks none.
pub open spec fn used_range(s: Seq<bool>) -> Option<(u8, u8)> {
    if first_set(s, 0) < 256 {
        Some((first_set(s, 0) as u8, last_set(s, 256) as u8))
    } else {
        None
    }
}

/// Values missing from strictly inside the marked range.
pub open spec fn spec_interior_gaps(s: Seq<bool>) -> int {
    match used_range(s) {
        Some((lo, hi)) => hi - lo + 1 - count_set(s, 0, 256),
        None => 0,
    }
}

proof fn lemma_first_set(s: Seq<bool>, i: int)
    requires
        0 <= i <= 256,
        s.len() == 256,
    ensures
        i <= first_set(s, i) <= 256,
        first_set(s, i) < 256 ==> s[first_set(s, i)],
        forall|k: int| i <= k < first_set(s, i) ==> !s[k],
    decreases 256 - i,
{
    if i < 256 && !s[i] {
        lemma_first_set(s, i + 1);
    }
}

proof fn lemma_last_set(s: Seq<bool>, i: int)
    requires
        0 <= i <= 256,
        s.len() == 256,
    ensures
        -1 <= last_set(s, i) < i,
        last_set(s, i) >= 0 ==> s[last_set(s, i)],
        forall|k: int| last_set(s, i) < k < i ==> !s[k],
    decreases i,
{
    if i > 0 && !s[i - 1] {
        lemma_last_set(s, i - 1);
    }
}

proof fn lemma_count_split(s: Seq<bool>, a: int, b: int, c: int)
    requires
        a <= b <= c,
    ensures
        count_set(s, a, c) == count_set(s, a, b) + count_set(s, b, c),
    decreases c - b,
{
    if c > b {
        lemma_count_split(s, a, b, c - 1);
    }
}

proof fn lemma_count_none(s: Seq<bool>, a: int, b: int)
    requires
        forall|k: int| a <= k < b ==> !s[k],
    ensures
        count_set(s, a, b) == 0,
    decreases b - a,
{
    if b > a {
        lemma_count_none(s, a, b - 1);
    }
}

proof fn lemma_count_le(s: Seq<bool>, a: int, b: int)
    requires
        a <= b,
    ensures
        count_set(s, a, b) <= b - a,
    decreases b - a,
{
    if b > a {
        lemma_count_le(s, a, b - 1);
    }
}

/// A marked range holds every marked value, so there are at most as many as the range is wide.
proof fn lemma_range_holds_all(s: Seq<bool>)
    requires
        s.len() == 256,
    ensures
        count_set(s, 0, 256) <= 256,
        used_range(s) matches Some((lo, hi)) ==> {
            &&& lo <= hi
            &&& s[lo as int]
            &&& s[hi as int]
            &&& forall|k: int| 0 <= k < 256 && s[k] ==> lo <= k <= hi
            &&& count_set(s, 0, 256) <= hi - lo + 1
        },
        used_range(s) is None ==> forall|k: int| 0 <= k < 256 ==> !s[k],
        0 <= spec_interior_gaps(s) <= 256,
{
    lemma_count_le(s, 0, 256);
    lemma_first_set(s, 0);
    lemma_last_set(s, 256);
    let lo = first_set(s, 0);
    let hi = last_set(s, 256);
    if lo < 256 {
        assert(lo <= hi);
        lemma_count_split(s, 0, lo, 256);
        lemma_count_split(s, lo, hi + 1, 256);
        lemma_count_none(s, 0, lo);
        lemma_count_none(s, hi + 1, 256);
        lemma_count_le(s, lo, hi + 1);
    }
}

/// Which of the 256 values a channel actually uses.
#[derive(Debug, Clone)]
pub struct Census {
    pub used: Vec<bool>,
}

impl Census {
    /// One flag per value.
    pub open spec fn wf(&self) -> bool {
        self.used@.len() == 256
    }

    /// How many values the channel uses.
    pub fn distinct(&self) -> (n: usize)
        requires
            self.wf(),
        ensures
            n == count_set(self.used@, 0, 256),
            n <= 256,
    {
        let mut n: usize = 0;
        let mut v: usize = 0;
        while v < 256
            invariant
                self.wf(),
                v <= 256,
                n <= v,
                n == count_set(self.used@, 0, v as int),
            decreases 256 - v,
        {
            if self.used[v] {
                n = n + 1;
            }
            v = v + 1;
        }
        n
    }

    /// How many of the 256 values the channel does not use.
    pub fn missing(&self) -> (n: usize)
        requires
            self.wf(),
        ensures
            n == 256 - count_set(self.used@, 0, 256),
    {
        256 - self.distinct()
    }

    /// Lowest and highest value the channel uses, or `None` for an empty channel.
    pub fn range(&self) -> (r: Option<(u8, u8)>)
        requires
            self.wf(),
        ensures
            r == used_range(self.used@),
    {
        let ghost s = self.used@;
        let mut lo: usize = 0;
        while lo < 256 && !self.used[lo]
            invariant
                self.wf(),
                s == self.used@,
                lo <= 256,
                first_set(s, 0) == first_set(s, lo as int),
            decreases 256 - lo,
        {
            lo = lo + 1;
        }
        if lo == 256 {
            return None;
        }
        proof {
            lemma_last_set(s, 256);
        }
        let mut hi: usize = 256;
        while hi > 0 && !self.used[hi - 1]
            invariant
                self.wf(),
                s == self.used@,
                lo < 256,
                s[lo as int],
                hi <= 256,
                last_set(s, 256) == last_set(s, hi as int),
                forall|k: int| last_set(s, 256) < k < 256 ==> !s[k],
            decreases hi,
        {
            hi = hi - 1;
        }
        proof {
            assert(last_set(s, 256) >= lo);
        }
        Some((lo as u8, (hi - 1) as u8))
    }

    /// Values missing from inside the channel's own range.
    ///
    /// This is the number that matters, not [`Census::missing`]. A channel using 16 consecutive
    /// values is missing 240 of the 256 and has nothing to gain: stage 2 already subtracts a base
    /// per block, so a contiguous band costs the same wherever it sits. A channel using 2 values
    /// 255 apart is missing the same 240 and everything to gain.
    pub fn interior_gaps(&self) -> (n: usize)
        requires
            self.wf(),
        ensures
            n == spec_interior_gaps(self.used@),
    {
        proof {
            lemma_range_holds_all(self.used@);
        }
        match self.range() {
            Some((lo, hi)) => (hi - lo) as usize + 1 - self.distinct(),
            None => 0,
        }
    }
}

/// What decides whether a channel is worth remapping.
#[derive(Debug, Clone, Copy, PartialEq, Eq, Structural)]
pub enum Criterion {
    /// Values missing anywhere in 0..=255. The obvious reading, and the wrong one.
    Missing,
    /// Values missing from inside the channel's own range.
    InteriorGaps,
}

/// The number a criterion judges a census by.
pub open spec fn criterion_count(k: Criterion, s: Seq<bool>) -> int {
    match k {
        Criterion::Missing => 256 - count_set(s, 0, 256),
        Criterion::InteriorGaps => spec_interior_gaps(s),
    }
}

impl Criterion {
    pub fn count(self, c: &Census) -> (n: usize)
        requires
            c.wf(),
        ensures
            n == criterion_count(self, c.used@),
    {
        match self {
            Criterion::Missing => c.missing(),
            Criterion::InteriorGaps => c.interior_gaps(),
        }
    }

    pub fn name(self) -> (s: &'static str)
        ensures
            self == Criterion::Missing ==> s@ == "missing"@,
            self == Criterion::InteriorGaps ==> s@ == "gaps"@,
    {
        match self {
            Criterion::Missing => "missing",
            Criterion::InteriorGaps => "gaps",
        }
    }
}

/// One census per channel, in channel order.
pub fn census(img: &RawImage) -> (out: Vec<Census>)
    requires
        img.wf(),
    ensures
        out@.len() == img.spec_channels(),
        forall|c: int|
            0 <= c < out@.len() ==> (#[trigger] out@[c]).used@ == channel_used(
                img.spec_data(),
                img.spec_channels() as nat,
                c as nat,
            ),
{
    proof {
        img.lemma_wf();
    }
    let stride = img.channels() as usize;
    let data = img.data();
    let mut out: Vec<Census> = Vec::new();
    let mut c: usize = 0;
    while c < stride
        invariant
            stride == img.spec_channels(),
            data@ == img.spec_data(),
            c <= stride,
            out@.len() == c,
            forall|k: int|
                0 <= k < c ==> (#[trigger] out@[k]).used@ == channel_used(
                    data@,
                    stride as nat,
                    k as nat,
                ),
        decreases stride - c,
    {
        let (used, _) = scan_channel(data, stride, c);
        out.push(Census { used });
        c = c + 1;
    }
    out
}

/// Every census in the list marks 256 values.
pub open spec fn censuses_wf(census: Seq<Census>) -> bool {
    forall|c: int| 0 <= c < census.len() ==> (#[trigger] census[c]).wf()
}

/// The rank map for each channel, or `None` where the channel is left alone.
#[derive(Debug, Clone)]
pub struct Remap {
    /// `forward[c]` maps a sample to its rank among the values that channel uses.
    pub forward: Vec<Option<Vec<u8>>>,
    /// `inverse[c][rank]` is the value that rank came from.
    pub inverse: Vec<Option<Vec<u8>>>,
}

/// How many of the first `n` tables are present.
pub open spec fn count_present(s: Seq<Option<Vec<u8>>>, n: int) -> nat
    decreases n,
{
    if n <= 0 {
        0
    } else {
        count_present(s, n - 1) + if s[n - 1] is Some {
            1nat
        } else {
            0nat
        }
    }
}

/// Bits one remapped channel's table costs: a flag choosing the form, then the cheaper of a list
/// of the missing values and a bitmap over the range with its two endpoints.
pub open spec fn channel_table_bits(s: Seq<bool>) -> int {
    let (lo, hi) = match used_range(s) {
        Some(r) => r,
        None => (0u8, 255u8),
    };
    let span = hi - lo + 1;
    let list = 8 + 8 * spec_interior_gaps(s);
    let bitmap = 16 + span;
    1 + if list <= bitmap {
        list
    } else {
        bitmap
    }
}

/// Bits the tables of the first `n` channels cost, not counting the per-channel flags.
pub open spec fn tables_bits(forward: Seq<Option<Vec<u8>>>, census: Seq<Census>, n: int) -> int
    decreases n,
{
    if n <= 0 {
        0
    } else {
        tables_bits(forward, census, n - 1) + if forward[n - 1] is Some {
            channel_table_bits(census[n - 1].used@)
        } else {
            0
        }
    }
}

impl Remap {
    /// Channels this map actually touches.
    pub fn touched(&self) -> (n: usize)
        ensures
            n == count_present(self.forward@, self.forward@.len() as int),
    {
        let mut n: usize = 0;
        let mut c: usize = 0;
        while c < self.forward.len()
            invariant
                c <= self.forward@.len(),
                n <= c,
                n == count_present(self.forward@, c as int),
            decreases self.forward@.len() - c,
        {
            if self.forward[c].is_some() {
                n = n + 1;
            }
            c = c + 1;
        }
        n
    }

    /// Exact bits the map costs in a stream.
    ///
    /// One bit per channel says whether it is remapped. A remapped channel then spends one more
    /// bit choosing between the two ways of naming the missing values, and the cheaper is taken:
    /// a list, an 8-bit count and then each missing value verbatim; or a bitmap over the
    /// channel's own range, its two endpoints and then one bit per value in between.
    pub fn table_bits(&self, channels: usize, census: &[Census]) -> (bits: u64)
        requires
            census@.len() >= self.forward@.len(),
            censuses_wf(census@),
            channels + 273 * self.forward@.len() <= u64::MAX,
        ensures
            bits == channels + tables_bits(self.forward@, census@, self.forward@.len() as int),
    {
        let mut bits: u64 = channels as u64;
        let mut c: usize = 0;
        while c < self.forward.len()
            invariant
                c <= self.forward@.len(),
                census@.len() >= self.forward@.len(),
                censuses_wf(census@),
                channels + 273 * self.forward@.len() <= u64::MAX,
                0 <= tables_bits(self.forward@, census@, c as int) <= 273 * c,
                bits == channels + tables_bits(self.forward@, census@, c as int),
            decreases self.forward@.len() - c,
        {
            if self.forward[c].is_some() {
                let cen = &census[c];
                proof {
                    assert(census@[c as int].wf());
                    lemma_range_holds_all(cen.used@);
                }
                let (lo, hi) = match cen.range() {
                    Some(r) => r,
                    None => (0u8, 255u8),
                };
                let span = (hi - lo) as u64 + 1;
                let gaps = cen.interior_gaps() as u64;
                let list = 8 + 8 * gaps;
                let bitmap = 16 + span;
                bits = bits + 1 + if list <= bitmap {
                    list
                } else {
                    bitmap
                };
            }
            c = c + 1;
        }
        bits
    }
}

/// What [`plan_by`] makes of one channel: left alone when its count falls short of the
/// threshold or is zero, and otherwise given the rank tables of the values it uses.
pub open spec fn planned_channel(
    used: Seq<bool>,
    criterion: Criterion,
    threshold: usize,
    forward: Option<Vec<u8>>,
    inverse: Option<Vec<u8>>,
) -> bool {
    let count = criterion_count(criterion, used);
    if count < threshold || count == 0 {
        forward is None && inverse is None
    } else {
        forward matches Some(f) && inverse matches Some(inv) && rank_tables_of(used, f@, inv@)
    }
}

/// Builds the map, remapping a channel whose [`Criterion`] count reaches `threshold`.
pub fn plan_by(census: &[Census], criterion: Criterion, threshold: usize) -> (m: Remap)
    requires
        censuses_wf(census@),
    ensures
        m.forward@.len() == census@.len(),
        m.inverse@.len() == census@.len(),
        forall|c: int|
            0 <= c < census@.len() ==> planned_channel(
                (#[trigger] census@[c]).used@,
                criterion,
                threshold,
                m.forward@[c],
                m.inverse@[c],
            ),
{
    let mut forward: Vec<Option<Vec<u8>>> = Vec::new();
    let mut inverse: Vec<Option<Vec<u8>>> = Vec::new();
    let mut c: usize = 0;
    while c < census.len()
        invariant
            censuses_wf(census@),
            c <= census@.len(),
            forward@.len() == c,
            inverse@.len() == c,
            forall|k: int|
                0 <= k < c ==> planned_channel(
                    (#[trigger] census@[k]).used@,
                    criterion,
                    threshold,
                    forward@[k],
                    inverse@[k],
                ),
        decreases census@.len() - c,
    {
        let cen = &census[c];
        proof {
            assert(census@[c as int].wf());
        }
        let count = criterion.count(cen);
        if count < threshold || count == 0 {
            forward.push(None);
            inverse.push(None);
        } else {
            let (f, inv) = rank_tables(&cen.used);
            forward.push(Some(f));
            inverse.push(Some(inv));
        }
        c = c + 1;
    }
    Remap { forward, inverse }
}

/// [`plan_by`] with the criterion the measurements settled on.
pub fn plan(census: &[Census], threshold: usize) -> (m: Remap)
    requires
        censuses_wf(census@),
    ensures
        m.forward@.len() == census@.len(),
        m.inverse@.len() == census@.len(),
        forall|c: int|
            0 <= c < census@.len() ==> planned_channel(
                (#[trigger] census@[c]).used@,
                Criterion::InteriorGaps,
                threshold,
                m.forward@[c],
                m.inverse@[c],
            ),
{
    plan_by(census, Criterion::InteriorGaps, threshold)
}

/// Each of the first `stride` tables, where present, covers all 256 values.
pub open spec fn tables_cover(tables: Seq<Option<Vec<u8>>>, stride: nat) -> bool {
    &&& tables.len() >= stride
    &&& forall|c: int|
        0 <= c < stride ==> (#[trigger] tables[c] matches Some(f) ==> f@.len() == 256)
}

/// Sample `i` after renumbering by the channel's forward table.
pub open spec fn ranked_at(data: Seq<u8>, stride: nat, forward: Seq<Option<Vec<u8>>>, i: int) -> u8 {
    match forward[i % (stride as int)] {
        Some(f) => f@[data[i] as int],
        None => data[i],
    }
}

/// Whether sample `i` names a rank its channel's inverse table does not have.
pub open spec fn rank_missing(
    data: Seq<u8>,
    stride: nat,
    inverse: Seq<Option<Vec<u8>>>,
    i: int,
) -> bool {
    inverse[i % (stride as int)] matches Some(t) && data[i] >= t@.len()
}

/// Sample `i` after turning its rank back into a value.
pub open spec fn valued_at(data: Seq<u8>, stride: nat, inverse: Seq<Option<Vec<u8>>>, i: int) -> u8 {
    match inverse[i % (stride as int)] {
        Some(t) => t@[data[i] as int],
        None => data[i],
    }
}

/// Rewrites every sample as its rank. Geometry is untouched.
pub fn apply(img: &RawImage, map: &Remap) -> (out: RawImage)
    requires
        img.wf(),
        tables_cover(map.forward@, img.spec_channels() as nat),
    ensures
        out.wf(),
        out.spec_width() == img.spec_width(),
        out.spec_height() == img.spec_height(),
        out.spec_channels() == img.spec_channels(),
        out.spec_data().len() == img.spec_data().len(),
        forall|i: int|
            0 <= i < img.spec_data().len() ==> #[trigger] out.spec_data()[i] == ranked_at(
                img.spec_data(),
                img.spec_channels() as nat,
                map.forward@,
                i,
            ),
{
    proof {
        img.lemma_wf();
    }
    let stride = img.channels() as usize;
    let src = img.data();
    let mut data = vstd::slice::slice_to_vec(src);
    let mut i: usize = 0;
    while i < data.len()
        invariant
            stride == img.spec_channels(),
            stride > 0,
            src@ == img.spec_data(),
            data@.len() == src@.len(),
            tables_cover(map.forward@, stride as nat),
            i <= data@.len(),
            forall|k: int| 0 <= k < i ==> #[trigger] data@[k] == ranked_at(src@, stride as nat, map.forward@, k),
            forall|k: int| i <= k < data@.len() ==> #[trigger] data@[k] == src@[k],
        decreases data@.len() - i,
    {
        match &map.forward[i % stride] {
            Some(f) => {
                proof {
                    assert(map.forward@[(i % stride) as int] matches Some(g) && g@.len() == 256);
                }
                let v = f[data[i] as usize];
                data.set(i, v);
            },
            None => {},
        }
        i = i + 1;
    }
    RawImage::new(img.width(), img.height(), img.channels(), data).expect(
        "a rank map preserves geometry",
    )
}

/// Every sample names a rank its channel's table has, where the channel has a table.
pub open spec fn ranks_present(data: Seq<u8>, stride: nat, inverse: Seq<Option<Vec<u8>>>) -> bool {
    forall|i: int| 0 <= i < data.len() ==> !rank_missing(data, stride, inverse, i)
}

/// `e` reports the first sample whose rank its channel's table lacks.
pub open spec fn first_missing_rank(
    data: Seq<u8>,
    stride: nat,
    inverse: Seq<Option<Vec<u8>>>,
    e: BrpError,
) -> bool {
    exists|j: int|
        0 <= j < data.len() && rank_missing(data, stride, inverse, j) && (forall|k: int|
            0 <= k < j ==> !rank_missing(data, stride, inverse, k)) && e
            == (BrpError::AlphabetRankOutOfRange {
            rank: data[j],
            size: inverse[j % (stride as int)].unwrap()@.len() as usize,
        })
}

/// `out` is `img` with every rank turned back into its value.
pub open spec fn valued_image(img: RawImage, inverse: Seq<Option<Vec<u8>>>, out: RawImage) -> bool {
    &&& out.wf()
    &&& out.spec_width() == img.spec_width()
    &&& out.spec_height() == img.spec_height()
    &&& out.spec_channels() == img.spec_channels()
    &&& out.spec_data().len() == img.spec_data().len()
    &&& forall|i: int|
        0 <= i < img.spec_data().len() ==> #[trigger] out.spec_data()[i] == valued_at(
            img.spec_data(),
            img.spec_channels() as nat,
            inverse,
            i,
        )
}

/// Reverses [`apply`]. Fails on the first sample naming a rank its channel's table lacks.
pub fn undo(img: &RawImage, map: &Remap) -> (r: Result<RawImage, BrpError>)
    requires
        img.wf(),
        map.inverse@.len() >= img.spec_channels(),
    ensures
        ranks_present(img.spec_data(), img.spec_channels() as nat, map.inverse@) ==> (r matches Ok(
            out,
        ) && valued_image(*img, map.inverse@, out)),
        r matches Err(e) ==> first_missing_rank(
            img.spec_data(),
            img.spec_channels() as nat,
            map.inverse@,
            e,
        ),
{
    proof {
        img.lemma_wf();
    }
    let stride = img.channels() as usize;
    let src = img.data();
    let mut data = vstd::slice::slice_to_vec(src);
    let mut i: usize = 0;
    while i < data.len()
        invariant
            stride == img.spec_channels(),
            stride > 0,
            src@ == img.spec_data(),
            data@.len() == src@.len(),
            map.inverse@.len() >= stride,
            i <= data@.len(),
            forall|k: int| 0 <= k < i ==> !rank_missing(src@, stride as nat, map.inverse@, k),
            forall|k: int| 0 <= k < i ==> #[trigger] data@[k] == valued_at(src@, stride as nat, map.inverse@, k),
            forall|k: int| i <= k < data@.len() ==> #[trigger] data@[k] == src@[k],
        decreases data@.len() - i,
    {
        match &map.inverse[i % stride] {
            Some(t) => {
                let rank = data[i];
                if rank as usize >= t.len() {
                    proof {
                        assert(data@[i as int] == src@[i as int]);
                        assert(rank_missing(src@, stride as nat, map.inverse@, i as int));
                    }
                    return Err(BrpError::AlphabetRankOutOfRange { rank, size: t.len() });
                }
                let v = t[rank as usize];
                data.set(i, v);
            },
            None => {},
        }
        i = i + 1;
    }
    Ok(RawImage::new(img.width(), img.height(), img.channels(), data).expect(
        "a rank map preserves geometry",
    ))
}

/// Remapping by the tables planned from an image's own census, then undoing it, gives the image
/// back: every sample's rank is in its channel's table, and that table maps it to the sample.
pub proof fn lemma_planned_remap_round_trips(
    data: Seq<u8>,
    stride: nat,
    census: Seq<Census>,
    criterion: Criterion,
    threshold: usize,
    m: Remap,
)
    requires
        stride > 0,
        census.len() == stride,
        forall|c: int| 0 <= c < stride ==> (#[trigger] census[c]).used@ == channel_used(data, stride, c as nat),
        m.forward@.len() == stride,
        m.inverse@.len() == stride,
        forall|c: int|
            0 <= c < stride ==> planned_channel(
                (#[trigger] census[c]).used@,
                criterion,
                threshold,
                m.forward@[c],
                m.inverse@[c],
            ),
    ensures
        tables_cover(m.forward@, stride),
        forall|i: int|
            0 <= i < data.len() ==> !rank_missing(
                Seq::new(data.len(), |k: int| ranked_at(data, stride, m.forward@, k)),
                stride,
                m.inverse@,
                i,
            ) && valued_at(
                Seq::new(data.len(), |k: int| ranked_at(data, stride, m.forward@, k)),
                stride,
                m.inverse@,
                i,
            ) == data[i],
{
    let ranked = Seq::new(data.len(), |k: int| ranked_at(data, stride, m.forward@, k));
    assert forall|c: int| 0 <= c < stride implies (#[trigger] m.forward@[c] matches Some(f)
        ==> f@.len() == 256) by {
        assert(planned_channel(census[c].used@, criterion, threshold, m.forward@[c], m.inverse@[c]));
    }
    assert forall|i: int| 0 <= i < data.len() implies !rank_missing(ranked, stride, m.inverse@, i)
        && valued_at(ranked, stride, m.inverse@, i) == data[i] by {
        let c = i % (stride as int);
        let t = i / (stride as int);
        assert(c + t * stride == i) by (nonlinear_arith)
            requires
                c == i % (stride as int),
                t == i / (stride as int),
                stride > 0,
        ;
        assert(0 <= c < stride);
        assert(t >= 0) by (nonlinear_arith)
            requires
                t == i / (stride as int),
                stride > 0,
                i >= 0,
        ;
        let used = census[c].used@;
        assert(planned_channel(used, criterion, threshold, m.forward@[c], m.inverse@[c]));
        match m.forward@[c] {
            Some(f) => {
                let inv = m.inverse@[c].unwrap();
                let v = data[i];
                assert(channel_uses(data, stride, c as nat, v)) by {
                    let tn: nat = t as nat;
                    let cn: nat = c as nat;
                    assert(cn + tn * stride == i);
                    assert(data[(cn + tn * stride) as int] == v);
                }
                assert(used[v as int]);
                assert(inv@.contains(v));
                let r = choose|r: int| 0 <= r < inv@.len() && inv@[r] == v;
                assert(f@[inv@[r] as int] == r);
                assert(ranked[i] == r);
            },
            None => {},
        }
    }
}

/// Undoing a planned remap gives back the image it was applied to: on the remapped samples every
/// rank is present, so [`undo`] succeeds, and the image it returns holds the original samples.
pub proof fn lemma_remap_undo_inverts_apply(
    img: RawImage,
    m: Remap,
    census: Seq<Census>,
    criterion: Criterion,
    threshold: usize,
    ranked: RawImage,
    out: RawImage,
)
    requires
        img.wf(),
        census.len() == img.spec_channels(),
        forall|c: int|
            0 <= c < img.spec_channels() ==> (#[trigger] census[c]).used@ == channel_used(
                img.spec_data(),
                img.spec_channels() as nat,
                c as nat,
            ),
        m.forward@.len() == img.spec_channels(),
        m.inverse@.len() == img.spec_channels(),
        forall|c: int|
            0 <= c < img.spec_channels() ==> planned_channel(
                (#[trigger] census[c]).used@,
                criterion,
                threshold,
                m.forward@[c],
                m.inverse@[c],
            ),
        ranked.spec_channels() == img.spec_channels(),
        ranked.spec_data().len() == img.spec_data().len(),
        forall|i: int|
            0 <= i < img.spec_data().len() ==> #[trigger] ranked.spec_data()[i] == ranked_at(
                img.spec_data(),
                img.spec_channels() as nat,
                m.forward@,
                i,
            ),
        valued_image(ranked, m.inverse@, out),
    ensures
        ranks_present(ranked.spec_data(), img.spec_channels() as nat, m.inverse@),
        out.spec_data() == img.spec_data(),
{
    img.lemma_wf();
    let data = img.spec_data();
    let stride = img.spec_channels() as nat;
    lemma_planned_remap_round_trips(data, stride, census, criterion, threshold, m);
    let s = Seq::new(data.len(), |k: int| ranked_at(data, stride, m.forward@, k));
    assert(ranked.spec_data() =~= s);
    assert(out.spec_data() =~= data);
}

/// Ranks keep the order of the values they replace and never spread them further apart: the
/// ranks of two used values are no further apart than the values.
pub proof fn lemma_ranks_never_grow_a_difference(used: Seq<bool>, forward: Seq<u8>, inverse: Seq<u8>, a: u8, b: u8)
    requires
        rank_tables_of(used, forward, inverse),
        used[a as int],
        used[b as int],
        a <= b,
    ensures
        forward[a as int] <= forward[b as int],
        forward[b as int] - forward[a as int] <= b - a,
{
    assert(inverse.contains(a));
    assert(inverse.contains(b));
    let i = choose|i: int| 0 <= i < inverse.len() && inverse[i] == a;
    let j = choose|j: int| 0 <= j < inverse.len() && inverse[j] == b;
    assert(forward[a as int] == i);
    assert(forward[b as int] == j);
    if j < i {
        assert(inverse[j] < inverse[i]);
    }
    lemma_ascending_spread(inverse, i, j);
}

/// In a strictly ascending list of integers, entries `j - i` apart differ by at least that much.
proof fn lemma_ascending_spread(s: Seq<u8>, i: int, j: int)
    requires
        ascending(s),
        0 <= i <= j < s.len(),
    ensures
        s[j] - s[i] >= j - i,
    decreases j - i,
{
    if j > i {
        lemma_ascending_spread(s, i, j - 1);
    }
}

} // verus!
