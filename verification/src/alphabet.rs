//! Whole-image alphabet compaction.
//!
//! A coded channel that never uses some of the values *inside its own range* is renumbered so the
//! values it does use are contiguous: the `k`-th smallest present value becomes `k`. A text page
//! holding only 0 and 255 then holds only 0 and 1, and everything downstream sees an alphabet two
//! values wide instead of 256.
//!
//! Maps come before channel reduction, and every channel may carry one, so unmapping is the last
//! step of a decode: an alias copies its target's ranks, and each channel then turns its own
//! ranks back into samples with its own table.

use crate::bitio::{BitReader, BitWriter};
use crate::bits::{
    bit_value, bits_of, bits_val, byte_bits, lemma_bits_of_bits_val, lemma_bits_of_len,
    lemma_bits_val_bound, lemma_bits_val_of, lemma_byte_bits_index, lemma_byte_bits_len,
    lemma_byte_bits_within, pad_len, padded, zeros,
};
use crate::error::BrpError;
use vstd::arithmetic::div_mod::*;
use vstd::arithmetic::power2::*;
use vstd::prelude::*;

verus! {

/// Serialized form of an absent map.
pub const FORM_NONE: u8 = 0;

/// The values between `lo` and `hi`, one bit each, most significant bit first.
pub const FORM_BITMAP: u8 = 1;

/// A count, then the values strictly between `lo` and `hi` that are absent, ascending.
pub const FORM_LIST: u8 = 2;

/// Strictly ascending.
pub open spec fn ascending(s: Seq<u8>) -> bool {
    forall|i: int, j: int| 0 <= i < j < s.len() ==> s[i] < s[j]
}

/// `vals` lists, in ascending order, exactly the values `used` marks.
pub open spec fn lists_used(vals: Seq<u8>, used: Seq<bool>) -> bool {
    &&& ascending(vals)
    &&& forall|v: u8| #[trigger] vals.contains(v) == used[v as int]
}

/// A value list a map can be built from: non-empty and ascending.
pub open spec fn valid_values(vals: Seq<u8>) -> bool {
    &&& vals.len() >= 1
    &&& ascending(vals)
}

pub open spec fn lo_of(vals: Seq<u8>) -> u8 {
    vals[0]
}

pub open spec fn hi_of(vals: Seq<u8>) -> u8 {
    vals[vals.len() - 1]
}

/// The values strictly between `lo` and `hi`.
pub open spec fn span_of(lo: u8, hi: u8) -> nat {
    if hi > lo {
        (hi - lo - 1) as nat
    } else {
        0
    }
}

/// Values missing from strictly inside `lo..=hi`.
pub open spec fn gaps_of(vals: Seq<u8>) -> nat {
    (hi_of(vals) - lo_of(vals) + 1 - vals.len()) as nat
}

/// Length of the bitmap body: one bit per interior value, padded to a byte.
pub open spec fn bitmap_len(vals: Seq<u8>) -> nat {
    (span_of(lo_of(vals), hi_of(vals)) + 7) / 8
}

/// Length of the list body: a count, then one byte per missing value.
pub open spec fn list_len(vals: Seq<u8>) -> nat {
    1 + gaps_of(vals)
}

/// The form a map is written in: the shorter body, the bitmap on a tie.
pub open spec fn form_of(vals: Seq<u8>) -> u8 {
    if bitmap_len(vals) <= list_len(vals) {
        FORM_BITMAP
    } else {
        FORM_LIST
    }
}

pub open spec fn body_len(vals: Seq<u8>) -> nat {
    if bitmap_len(vals) <= list_len(vals) {
        bitmap_len(vals)
    } else {
        list_len(vals)
    }
}

/// One bit per value strictly between `lo` and `hi`: whether it is used.
pub open spec fn interior_bits(vals: Seq<u8>) -> Seq<bool> {
    Seq::new(
        span_of(lo_of(vals), hi_of(vals)),
        |k: int| vals.contains((lo_of(vals) + 1 + k) as u8),
    )
}

/// A bit string whose length is a multiple of eight, as bytes, most significant bit first.
pub open spec fn pack_bits(s: Seq<bool>) -> Seq<u8> {
    Seq::new(s.len() / 8, |k: int| bits_val(s.subrange(8 * k, 8 * k + 8)) as u8)
}

/// The values in `lo + 1 .. v` that the list does not use, ascending.
pub open spec fn missing_below(vals: Seq<u8>, lo: u8, v: nat) -> Seq<u8>
    decreases v,
{
    if v <= lo + 1 {
        Seq::empty()
    } else {
        let prev = missing_below(vals, lo, (v - 1) as nat);
        if vals.contains((v - 1) as u8) {
            prev
        } else {
            prev.push((v - 1) as u8)
        }
    }
}

/// The serialized map: form, `lo`, `hi`, then the body of that form.
pub open spec fn map_bytes(vals: Seq<u8>) -> Seq<u8> {
    let lo = lo_of(vals);
    let hi = hi_of(vals);
    if form_of(vals) == FORM_BITMAP {
        seq![FORM_BITMAP, lo, hi] + pack_bits(padded(interior_bits(vals)))
    } else {
        seq![FORM_LIST, lo, hi, gaps_of(vals) as u8] + missing_below(vals, lo, hi as nat)
    }
}

/// `forward` ranks each value among those `used` marks, zero for the others, and `inverse` lists
/// those values in ascending order, so that the value of rank `r` is `inverse[r]`.
pub open spec fn rank_tables_of(used: Seq<bool>, forward: Seq<u8>, inverse: Seq<u8>) -> bool {
    &&& forward.len() == 256
    &&& lists_used(inverse, used)
    &&& forall|r: int| 0 <= r < inverse.len() ==> forward[#[trigger] inverse[r] as int] == r
    &&& forall|u: u8| !inverse.contains(u) ==> #[trigger] forward[u as int] == 0
}

/// The rank tables of a set of used values: each used value's rank, and the values by rank.
pub(crate) fn rank_tables(used: &Vec<bool>) -> (r: (Vec<u8>, Vec<u8>))
    requires
        used@.len() == 256,
    ensures
        rank_tables_of(used@, r.0@, r.1@),
{
    let mut forward: Vec<u8> = vec![0u8; 256];
    let mut inverse: Vec<u8> = Vec::new();
    let mut v: usize = 0;
    while v < 256
        invariant
            used@.len() == 256,
            forward@.len() == 256,
            v <= 256,
            inverse@.len() <= v,
            ascending(inverse@),
            forall|k: int| 0 <= k < inverse@.len() ==> #[trigger] inverse@[k] < v,
            forall|u: int| 0 <= u < v ==> inverse@.contains(u as u8) == used@[u],
            forall|r: int|
                0 <= r < inverse@.len() ==> forward@[#[trigger] inverse@[r] as int] == r,
            forall|u: int| 0 <= u < 256 && !inverse@.contains(u as u8) ==> #[trigger] forward@[u] == 0,
            forall|u: int| v <= u < 256 ==> #[trigger] forward@[u] == 0,
            inverse@.len() == 0 ==> forall|u: int| 0 <= u < v ==> !used@[u],
        decreases 256 - v,
    {
        if used[v] {
            let ghost before = inverse@;
            forward.set(v, inverse.len() as u8);
            inverse.push(v as u8);
            proof {
                assert forall|u: int| 0 <= u < v + 1 implies inverse@.contains(u as u8)
                    == used@[u] by {
                    if u < v {
                        if before.contains(u as u8) {
                            let k = choose|k: int| 0 <= k < before.len() && before[k] == u as u8;
                            assert(inverse@[k] == u as u8);
                        }
                        if inverse@.contains(u as u8) {
                            let k = choose|k: int|
                                0 <= k < inverse@.len() && inverse@[k] == u as u8;
                            assert(k < before.len());
                        }
                    } else {
                        assert(inverse@[before.len() as int] == u as u8);
                    }
                }
                assert forall|u: int|
                    0 <= u < 256 && !inverse@.contains(u as u8) implies #[trigger] forward@[u]
                    == 0 by {
                    assert(u != v) by {
                        assert(inverse@[before.len() as int] == v as u8);
                    }
                    if before.contains(u as u8) {
                        let k = choose|k: int| 0 <= k < before.len() && before[k] == u as u8;
                        assert(inverse@[k] == u as u8);
                    }
                }
                assert forall|r: int|
                    0 <= r < inverse@.len() implies forward@[#[trigger] inverse@[r] as int]
                    == r by {
                    if r < before.len() {
                        assert(before[r] < v);
                    }
                }
            }
        } else {
            proof {
                assert forall|u: int|
                    0 <= u < 256 && !inverse@.contains(u as u8) implies #[trigger] forward@[u]
                    == 0 by {
                    if u >= v {
                    }
                }
                assert forall|u: int| 0 <= u < v + 1 implies inverse@.contains(u as u8)
                    == used@[u] by {
                    if u == v && inverse@.contains(u as u8) {
                        let k = choose|k: int|
                            0 <= k < inverse@.len() && inverse@[k] == u as u8;
                    }
                }
            }
        }
        v = v + 1;
    }
    proof {
        assert forall|u: u8| #[trigger] inverse@.contains(u) == used@[u as int] by {
            assert((u as int) as u8 == u);
        }
        assert forall|u: u8| !inverse@.contains(u) implies #[trigger] forward@[u as int]
            == 0 by {
            assert((u as int) as u8 == u);
        }
    }
    (forward, inverse)
}

/// One channel's renumbering.
#[derive(Debug, Clone, PartialEq, Eq)]
pub struct AlphabetMap {
    lo: u8,
    hi: u8,
    /// Rank of each value; zero for values the channel does not use.
    forward: Vec<u8>,
    /// The value each rank came from. Its length is the alphabet size.
    inverse: Vec<u8>,
}

impl AlphabetMap {
    /// The values the channel uses, ascending; the value of rank `r` is entry `r`.
    pub closed spec fn values(&self) -> Seq<u8> {
        self.inverse@
    }

    /// The rank a value maps to: its position among the used values, zero if unused.
    pub closed spec fn spec_rank(&self, v: u8) -> u8 {
        self.forward@[v as int]
    }

    pub closed spec fn wf(&self) -> bool {
        &&& valid_values(self.inverse@)
        &&& self.lo == lo_of(self.inverse@)
        &&& self.hi == hi_of(self.inverse@)
        &&& self.forward@.len() == 256
        &&& forall|r: int|
            0 <= r < self.inverse@.len() ==> self.forward@[#[trigger] self.inverse@[r] as int] == r
        &&& forall|v: u8| !self.inverse@.contains(v) ==> #[trigger] self.forward@[v as int] == 0
    }

    /// What a well-formed map promises: ranks index the value list, and unused values rank 0.
    pub proof fn lemma_wf(&self)
        requires
            self.wf(),
        ensures
            valid_values(self.values()),
            self.values().len() <= 256,
            self.values().len() <= hi_of(self.values()) - lo_of(self.values()) + 1,
            forall|r: int|
                0 <= r < self.values().len() ==> lo_of(self.values()) <= #[trigger] self.values()[r]
                    <= hi_of(self.values()),
            forall|v: u8|
                #[trigger] self.values().contains(v) ==> self.spec_rank(v) < self.values().len()
                    && self.values()[self.spec_rank(v) as int] == v,
            forall|v: u8| !self.values().contains(v) ==> #[trigger] self.spec_rank(v) == 0,
    {
        lemma_ascending_bounds(self.inverse@);
        assert forall|v: u8| #[trigger] self.values().contains(v) implies self.spec_rank(v)
            < self.values().len() && self.values()[self.spec_rank(v) as int] == v by {
            let r = choose|r: int| 0 <= r < self.inverse@.len() && self.inverse@[r] == v;
            assert(self.forward@[self.inverse@[r] as int] == r);
        }
    }

    /// Builds a map from the values a channel uses. Returns `None` when nothing is used.
    pub fn from_used(used: &Vec<bool>) -> (r: Option<Self>)
        requires
            used@.len() == 256,
        ensures
            r is None <==> (forall|v: int| 0 <= v < 256 ==> !used@[v]),
            r matches Some(m) ==> m.wf() && lists_used(m.values(), used@),
    {
        let (forward, inverse) = rank_tables(used);
        if inverse.len() == 0 {
            proof {
                assert forall|v: int| 0 <= v < 256 implies !used@[v] by {
                    assert(used@[(v as u8) as int] == inverse@.contains(v as u8));
                }
            }
            return None;
        }
        let lo = inverse[0];
        let hi = inverse[inverse.len() - 1];
        let m = AlphabetMap { lo, hi, forward, inverse };
        proof {
            let first = m.inverse@[0];
            assert(m.inverse@.contains(first));
            assert(used@[first as int]);
        }
        Some(m)
    }

    /// How many values the channel uses.
    pub fn alphabet_size(&self) -> (n: usize)
        requires
            self.wf(),
        ensures
            n == self.values().len(),
    {
        self.inverse.len()
    }

    /// Values missing from strictly inside `lo..=hi`.
    pub fn interior_gaps(&self) -> (n: usize)
        requires
            self.wf(),
        ensures
            n == gaps_of(self.values()),
    {
        proof {
            self.lemma_wf();
        }
        (self.hi - self.lo) as usize + 1 - self.inverse.len()
    }

    /// The cheaper serialized form for this map, and the length of its body in bytes.
    fn best_form(&self) -> (r: (u8, usize))
        requires
            self.wf(),
        ensures
            r.0 == form_of(self.values()),
            r.1 == body_len(self.values()),
    {
        proof {
            self.lemma_wf();
        }
        let span: usize = if self.hi > self.lo {
            (self.hi - self.lo - 1) as usize
        } else {
            0
        };
        let bitmap = (span + 7) / 8;
        let list = 1 + self.interior_gaps();
        if bitmap <= list {
            (FORM_BITMAP, bitmap)
        } else {
            (FORM_LIST, list)
        }
    }

    /// Serialized length: form, `lo`, `hi`, then the body.
    pub fn byte_len(&self) -> (n: usize)
        requires
            self.wf(),
        ensures
            n == 3 + body_len(self.values()),
            n <= 257,
    {
        proof {
            self.lemma_wf();
        }
        3 + self.best_form().1
    }

    /// Whether the channel uses `v`.
    fn forward_used(&self, v: u8) -> (b: bool)
        requires
            self.wf(),
        ensures
            b == self.values().contains(v),
    {
        proof {
            self.lemma_wf();
        }
        let r = self.forward[v as usize] as usize;
        r < self.inverse.len() && self.inverse[r] == v
    }

    /// The value a rank stands for, or an error when the stream named a rank the map has no
    /// value for.
    pub fn value(&self, rank: u8) -> (r: Result<u8, BrpError>)
        requires
            self.wf(),
        ensures
            rank < self.values().len() ==> r == Ok::<u8, BrpError>(self.values()[rank as int]),
            rank >= self.values().len() ==> r == Err::<u8, BrpError>(
                BrpError::AlphabetRankOutOfRange { rank, size: self.values().len() as usize },
            ),
    {
        if (rank as usize) < self.inverse.len() {
            Ok(self.inverse[rank as usize])
        } else {
            Err(BrpError::AlphabetRankOutOfRange { rank, size: self.inverse.len() })
        }
    }

    /// Appends the serialized map: form, `lo`, `hi`, then the cheaper body.
    pub fn write_to(&self, out: &mut Vec<u8>)
        requires
            self.wf(),
        ensures
            final(out)@ == old(out)@ + map_bytes(self.values()),
    {
        proof {
            self.lemma_wf();
        }
        let ghost vals = self.values();
        let (form, _) = self.best_form();
        out.push(form);
        out.push(self.lo);
        out.push(self.hi);
        if form == FORM_BITMAP {
            let mut w = BitWriter::new();
            let mut v: u16 = self.lo as u16 + 1;
            while v < self.hi as u16
                invariant
                    self.wf(),
                    vals == self.values(),
                    w.wf(),
                    self.lo + 1 <= v,
                    v <= self.hi || v == self.lo + 1,
                    w@ == interior_bits(vals).subrange(0, v - self.lo - 1),
                decreases self.hi - v,
            {
                let bit: u32 = if self.forward_used(v as u8) {
                    1
                } else {
                    0
                };
                w.write(bit, 1);
                proof {
                    assert(bits_of(bit as nat, 1) =~= seq![bit == 1]) by {
                        reveal_with_fuel(bits_of, 2);
                    }
                    assert(w@ =~= interior_bits(vals).subrange(0, v + 1 - self.lo - 1));
                }
                v = v + 1;
            }
            proof {
                if self.hi > self.lo {
                    assert(w@ =~= interior_bits(vals));
                } else {
                    assert(w@ =~= interior_bits(vals));
                }
            }
            let mut body = w.finish();
            proof {
                lemma_pack_of_bytes(body@);
            }
            out.append(&mut body);
        } else {
            let gaps = self.interior_gaps();
            out.push(gaps as u8);
            let ghost start = out@;
            let mut v: u16 = self.lo as u16 + 1;
            while v < self.hi as u16
                invariant
                    self.wf(),
                    vals == self.values(),
                    self.lo + 1 <= v,
                    v <= self.hi || v == self.lo + 1,
                    out@ == start + missing_below(vals, self.lo, v as nat),
                decreases self.hi - v,
            {
                if !self.forward_used(v as u8) {
                    out.push(v as u8);
                }
                proof {
                    assert(out@ =~= start + missing_below(vals, self.lo, (v + 1) as nat));
                }
                v = v + 1;
            }
            proof {
                if self.hi == self.lo {
                    assert(missing_below(vals, self.lo, self.hi as nat) =~= Seq::<u8>::empty());
                    assert(missing_below(vals, self.lo, (self.lo + 1) as nat) =~= Seq::<u8>::empty());
                }
                assert(out@ =~= old(out)@ + map_bytes(vals));
            }
        }
    }

    /// Parses one map, given the bytes that follow its `form` byte.
    pub fn parse(form: u8, bytes: &[u8]) -> (r: Result<(Self, usize), BrpError>)
        ensures
            match parse_map(form, bytes@) {
                Ok((used, n)) => r matches Ok((m, k)) && m.wf() && lists_used(m.values(), used)
                    && k == n,
                Err(e) => r == Err::<(Self, usize), BrpError>(e),
            },
    {
        if bytes.len() < 2 {
            return Err(BrpError::AlphabetTruncated);
        }
        let lo = bytes[0];
        let hi = bytes[1];
        if lo > hi {
            return Err(BrpError::AlphabetRangeInverted { lo, hi });
        }
        let mut used: Vec<bool> = vec![false; 256];
        used.set(lo as usize, true);
        used.set(hi as usize, true);
        let consumed: usize;
        if form == FORM_BITMAP {
            let span: usize = if hi > lo {
                (hi - lo - 1) as usize
            } else {
                0
            };
            let need = (span + 7) / 8;
            if bytes.len() < 2 + need {
                return Err(BrpError::AlphabetTruncated);
            }
            let body = vstd::slice::slice_subrange(bytes, 2, 2 + need);
            let ghost bits = byte_bits(body@);
            proof {
                lemma_byte_bits_len(body@);
                assert(body@ == bytes@.subrange(2, 2 + need as int));
            }
            let mut reader = BitReader::new(body);
            let mut i: usize = 0;
            while i < span
                invariant
                    reader.wf(),
                    reader.bits() == bits,
                    bits.len() == 8 * need,
                    span <= 8 * need,
                    span == span_of(lo, hi),
                    lo <= hi,
                    reader.pos() == i,
                    i <= span,
                    used@.len() == 256,
                    forall|v: int|
                        0 <= v < 256 ==> #[trigger] used@[v] == (v == lo || v == hi || (lo < v
                            < lo + 1 + i && bits[v - lo - 1])),
                decreases span - i,
            {
                let got = reader.read(1);
                match got {
                    Ok(bit) => {
                        proof {
                            lemma_one_bit(bits, i as nat);
                        }
                        if bit == 1 {
                            used.set(lo as usize + 1 + i, true);
                        }
                    },
                    Err(e) => {
                        return Err(e);
                    },
                }
                i = i + 1;
            }
            proof {
                lemma_padding_range(span as nat);
            }
            match reader.verify_padding() {
                Ok(()) => {},
                Err(_) => {
                    return Err(BrpError::AlphabetPaddingSet);
                },
            }
            proof {
                assert(used@ =~= bitmap_used(lo, hi, bits));
                assert forall|k: int| span <= k < 8 * need implies !#[trigger] bits[k] by {
                    if span % 8 != 0 {
                        assert(BitReader::padding_clear(bits, span as nat));
                    }
                }
                assert(!(exists|k: int| span <= k < 8 * need && #[trigger] bits[k]));
            }
            consumed = 2 + need;
            assert(parse_map(form, bytes@) == Ok::<(Seq<bool>, nat), BrpError>((used@, consumed as nat)));
        } else if form == FORM_LIST {
            if bytes.len() < 3 {
                return Err(BrpError::AlphabetTruncated);
            }
            let count = bytes[2] as usize;
            if bytes.len() < 3 + count {
                return Err(BrpError::AlphabetTruncated);
            }
            let ghost missing = bytes@.subrange(3, 3 + count as int);
            let mut v: u16 = lo as u16 + 1;
            while v < hi as u16
                invariant
                    used@.len() == 256,
                    lo < v <= hi || (v == lo + 1 && lo == hi),
                    forall|u: int|
                        0 <= u < 256 ==> #[trigger] used@[u] == (u == lo || u == hi || (lo < u
                            < v)),
                decreases hi - v,
            {
                used.set(v as usize, true);
                v = v + 1;
            }
            let mut previous = lo;
            let mut k: usize = 0;
            while k < count
                invariant
                    bytes@.len() >= 3 + count,
                    bytes@[2] == count,
                    bytes@[0] == lo,
                    bytes@[1] == hi,
                    form == FORM_LIST,
                    missing == bytes@.subrange(3, 3 + count as int),
                    count == missing.len(),
                    count <= 255,
                    lo <= hi,
                    k <= count,
                    previous == (if k == 0 {
                        lo
                    } else {
                        missing[k - 1]
                    }),
                    first_disorder(missing, lo, hi, 0) == first_disorder(missing, lo, hi, k as nat),
                    used@.len() == 256,
                    forall|u: int|
                        0 <= u < 256 ==> #[trigger] used@[u] == (lo <= u <= hi
                            && !missing.subrange(0, k as int).contains(u as u8)),
                decreases count - k,
            {
                let m = bytes[3 + k];
                assert(m == missing[k as int]);
                if m <= previous || m >= hi {
                    assert(first_disorder(missing, lo, hi, k as nat) == Some(k as nat));
                    assert(bytes@[2] == count);
                    assert(parse_map(form, bytes@) == Err::<(Seq<bool>, nat), BrpError>(
                        BrpError::AlphabetListDisordered(m),
                    ));
                    return Err(BrpError::AlphabetListDisordered(m));
                }
                assert(first_disorder(missing, lo, hi, k as nat) == first_disorder(
                    missing,
                    lo,
                    hi,
                    (k + 1) as nat,
                ));
                let ghost before = used@;
                used.set(m as usize, false);
                proof {
                    assert forall|u: int| 0 <= u < 256 implies #[trigger] used@[u] == (lo <= u <= hi
                        && !missing.subrange(0, k + 1).contains(u as u8)) by {
                        assert(missing.subrange(0, k + 1) =~= missing.subrange(0, k as int).push(m));
                        if u != m {
                            assert(before[u] == (lo <= u <= hi && !missing.subrange(
                                0,
                                k as int,
                            ).contains(u as u8)));
                        } else {
                            assert(missing.subrange(0, k + 1)[k as int] == m);
                        }
                    }
                }
                previous = m;
                k = k + 1;
            }
            proof {
                assert(missing.subrange(0, count as int) =~= missing);
                assert(used@ =~= list_used(lo, hi, missing));
                assert(first_disorder(missing, lo, hi, count as nat) == None::<nat>);
                assert(bytes@[2] == count);
                lemma_list_in_range(missing, lo, hi);
                assert(!missing.contains(lo));
            }
            consumed = 3 + count;
            assert(parse_map(form, bytes@) == Ok::<(Seq<bool>, nat), BrpError>((used@, consumed as nat)));
        } else {
            return Err(BrpError::UnsupportedAlphabetForm(form));
        }
        match AlphabetMap::from_used(&used) {
            Some(map) => Ok((map, consumed)),
            None => {
                proof {
                    assert(!used@[lo as int]);
                }
                Err(BrpError::AlphabetTruncated)
            },
        }
    }

    /// The rank of `v`, zero when the channel does not use it.
    pub fn rank(&self, v: u8) -> (r: u8)
        requires
            self.wf(),
        ensures
            r == self.spec_rank(v),
    {
        self.forward[v as usize]
    }
}

/// In an ascending list every entry lies between the first and the last, and there are no more
/// entries than values in that range.
pub proof fn lemma_ascending_bounds(s: Seq<u8>)
    requires
        valid_values(s),
    ensures
        forall|r: int| 0 <= r < s.len() ==> lo_of(s) + r <= #[trigger] s[r] <= hi_of(s),
        s.len() <= hi_of(s) - lo_of(s) + 1,
        s.len() <= 256,
    decreases s.len(),
{
    if s.len() > 1 {
        let t = s.drop_last();
        lemma_ascending_bounds(t);
        assert(t[t.len() - 1] < s[s.len() - 1]);
        assert forall|r: int| 0 <= r < s.len() implies lo_of(s) + r <= #[trigger] s[r] <= hi_of(
            s,
        ) by {
            if r < t.len() {
                assert(t[r] == s[r]);
            }
        }
    }
}

/// Which values a bitmap body marks as used: the two endpoints, and each interior value whose
/// bit is set.
pub open spec fn bitmap_used(lo: u8, hi: u8, bits: Seq<bool>) -> Seq<bool> {
    Seq::new(256, |v: int| v == lo || v == hi || (lo < v < hi && bits[v - lo - 1]))
}

/// Which values a list body marks as used: everything in `lo..=hi` the list does not name.
pub open spec fn list_used(lo: u8, hi: u8, missing: Seq<u8>) -> Seq<bool> {
    Seq::new(256, |v: int| lo <= v <= hi && !missing.contains(v as u8))
}

/// The first entry, from `k` on, of a missing-value list that does not climb strictly inside
/// `lo..hi`.
pub open spec fn first_disorder(missing: Seq<u8>, lo: u8, hi: u8, k: nat) -> Option<nat>
    decreases missing.len() - k,
{
    if k >= missing.len() {
        None
    } else {
        let prev = if k == 0 {
            lo
        } else {
            missing[k - 1]
        };
        if missing[k as int] <= prev || missing[k as int] >= hi {
            Some(k)
        } else {
            first_disorder(missing, lo, hi, k + 1)
        }
    }
}

/// What parsing one map from the bytes after its form byte yields: the used values and the
/// bytes consumed, or the first rule the bytes break.
pub open spec fn parse_map(form: u8, b: Seq<u8>) -> Result<(Seq<bool>, nat), BrpError> {
    if b.len() < 2 {
        Err(BrpError::AlphabetTruncated)
    } else if b[0] > b[1] {
        Err(BrpError::AlphabetRangeInverted { lo: b[0], hi: b[1] })
    } else if form == FORM_BITMAP {
        let span = span_of(b[0], b[1]);
        let need = (span + 7) / 8;
        if b.len() < 2 + need {
            Err(BrpError::AlphabetTruncated)
        } else {
            let bits = byte_bits(b.subrange(2, 2 + need as int));
            if exists|k: int| span <= k < 8 * need && #[trigger] bits[k] {
                Err(BrpError::AlphabetPaddingSet)
            } else {
                Ok((bitmap_used(b[0], b[1], bits), 2 + need))
            }
        }
    } else if form == FORM_LIST {
        if b.len() < 3 {
            Err(BrpError::AlphabetTruncated)
        } else if b.len() < 3 + b[2] {
            Err(BrpError::AlphabetTruncated)
        } else {
            let missing = b.subrange(3, 3 + b[2] as int);
            match first_disorder(missing, b[0], b[1], 0) {
                Some(k) => Err(BrpError::AlphabetListDisordered(missing[k as int])),
                None => Ok((list_used(b[0], b[1], missing), (3 + b[2]) as nat)),
            }
        }
    } else {
        Err(BrpError::UnsupportedAlphabetForm(form))
    }
}

/// A map entry reads only its own bytes: a longer buffer that starts with them parses alike.
proof fn lemma_parse_map_prefix(form: u8, b: Seq<u8>, k: int)
    requires
        parse_map(form, b) matches Ok((u, len)) && len <= k <= b.len(),
    ensures
        parse_map(form, b.subrange(0, k)) == parse_map(form, b),
{
    let p = b.subrange(0, k);
    assert(p[0] == b[0] && p[1] == b[1]);
    if form == FORM_BITMAP {
        let need = (span_of(b[0], b[1]) + 7) / 8;
        assert(p.subrange(2, 2 + need as int) =~= b.subrange(2, 2 + need as int));
    } else {
        assert(p[2] == b[2]);
        assert(p.subrange(3, 3 + b[2] as int) =~= b.subrange(3, 3 + b[2] as int));
    }
}

/// A map entry needs all its bytes: any shorter prefix of them is refused.
proof fn lemma_parse_map_needs_all(form: u8, b: Seq<u8>, k: int)
    requires
        parse_map(form, b) matches Ok((u, len)) && 0 <= k < len,
    ensures
        parse_map(form, b.subrange(0, k)) is Err,
{
    let p = b.subrange(0, k);
    if k >= 2 {
        assert(p[0] == b[0] && p[1] == b[1]);
        if form == FORM_LIST && k >= 3 {
            assert(p[2] == b[2]);
        }
    }
}

/// Parsing entries needs every byte up to where they end.
proof fn lemma_parse_entries_needs_all(b: Seq<u8>, at: nat, n: nat, k: int)
    requires
        n >= 1,
        parse_entries(b, at, n) matches Ok((u, end)) && 0 <= k < end,
        k <= b.len(),
    ensures
        parse_entries(b.subrange(0, k), at, n) is Err,
    decreases n,
{
    let p = b.subrange(0, k);
    if at >= k {
        return;
    }
    assert(p[at as int] == b[at as int]);
    if b[at as int] == FORM_NONE {
        if n - 1 >= 1 {
            lemma_parse_entries_needs_all(b, at + 1, (n - 1) as nat, k);
        }
    } else {
        let form = b[at as int];
        let tail = b.subrange(at + 1 as int, b.len() as int);
        let (used, len) = parse_map(form, tail)->Ok_0;
        if k < at + 1 + len {
            lemma_parse_map_needs_all(form, tail, k - at - 1);
            assert(p.subrange(at + 1 as int, p.len() as int) =~= tail.subrange(0, k - at - 1));
        } else {
            lemma_parse_map_prefix(form, tail, k - at - 1);
            assert(p.subrange(at + 1 as int, p.len() as int) =~= tail.subrange(0, k - at - 1));
            if n - 1 >= 1 {
                lemma_parse_entries_needs_all(b, at + 1 + len, (n - 1) as nat, k);
            }
        }
    }
}

/// An alphabet section needs all its bytes: every strict prefix of one is refused.
pub proof fn lemma_section_prefix_refused(b: Seq<u8>, channels: nat, k: int)
    requires
        parse_section(b, channels) matches Ok((u, end)) && 0 <= k < end,
        k <= b.len(),
    ensures
        parse_section(b.subrange(0, k), channels) is Err,
{
    if channels >= 1 {
        lemma_parse_entries_needs_all(b, 0, channels, k);
    }
}

/// Reading one bit gives that bit.
proof fn lemma_one_bit(s: Seq<bool>, i: nat)
    requires
        i < s.len(),
    ensures
        bits_val(s.subrange(i as int, i as int + 1)) == bit_value(s[i as int]),
{
    let t = s.subrange(i as int, i as int + 1);
    assert(t.drop_last() =~= Seq::<bool>::empty());
    assert(bits_val(t) == 2 * bits_val(t.drop_last()) + bit_value(t.last()));
}

/// The padding after `span` bits runs exactly to the end of the last byte.
proof fn lemma_padding_range(span: nat)
    ensures
        span <= 8 * ((span + 7) / 8),
        span % 8 != 0 ==> span + pad_len(span) == 8 * ((span + 7) / 8) && span < 8 * ((span + 7)
            / 8),
        span % 8 == 0 ==> span == 8 * ((span + 7) / 8),
{
    lemma_fundamental_div_mod(span as int, 8);
    lemma_fundamental_div_mod((span + 7) as int, 8);
}

/// Bytes read back as bits and packed again are the same bytes.
pub proof fn lemma_pack_of_bytes(b: Seq<u8>)
    ensures
        pack_bits(byte_bits(b)) == b,
{
    lemma_byte_bits_len(b);
    lemma2_to64();
    let p = pack_bits(byte_bits(b));
    assert forall|k: int| 0 <= k < b.len() implies #[trigger] p[k] == b[k] by {
        lemma_byte_bits_within(b, (8 * k) as nat, 8);
        assert((8 * k) / 8 == k && (8 * k) % 8 == 0) by {
            lemma_fundamental_div_mod_converse(8 * k, 8, k, 0);
        }
        lemma_bits_of_len(b[k] as nat, 8);
        assert(bits_of(b[k] as nat, 8).subrange(0, 8) =~= bits_of(b[k] as nat, 8));
        lemma_bits_val_of(b[k] as nat, 8);
    }
    assert(p =~= b);
}

/// Entry `t` of a missing-value list climbs past the one before it (or past `lo`) and stays
/// below `hi`.
pub open spec fn climbs_at(missing: Seq<u8>, lo: u8, hi: u8, t: int) -> bool {
    &&& missing[t] > (if t == 0 {
        lo
    } else {
        missing[t - 1]
    })
    &&& missing[t] < hi
}

/// A list with no disorder climbs strictly inside `lo..hi`.
proof fn lemma_list_in_range(missing: Seq<u8>, lo: u8, hi: u8)
    requires
        first_disorder(missing, lo, hi, 0) == None::<nat>,
    ensures
        forall|j: int| 0 <= j < missing.len() ==> lo < #[trigger] missing[j] < hi,
        forall|i: int, j: int| 0 <= i < j < missing.len() ==> missing[i] < missing[j],
{
    lemma_no_disorder_from(missing, lo, hi, 0);
    assert forall|j: int| 0 <= j < missing.len() implies lo < #[trigger] missing[j] < hi by {
        lemma_climbs(missing, lo, hi, j);
    }
    assert forall|i: int, j: int| 0 <= i < j < missing.len() implies missing[i] < missing[j] by {
        lemma_climbs_between(missing, lo, hi, i, j);
    }
}

proof fn lemma_no_disorder_from(missing: Seq<u8>, lo: u8, hi: u8, k: nat)
    requires
        first_disorder(missing, lo, hi, k) == None::<nat>,
    ensures
        forall|j: int| k <= j < missing.len() ==> #[trigger] climbs_at(missing, lo, hi, j),
    decreases missing.len() - k,
{
    if k < missing.len() {
        lemma_no_disorder_from(missing, lo, hi, k + 1);
        assert(climbs_at(missing, lo, hi, k as int));
    }
}

proof fn lemma_climbs(missing: Seq<u8>, lo: u8, hi: u8, j: int)
    requires
        0 <= j < missing.len(),
        forall|t: int| 0 <= t < missing.len() ==> #[trigger] climbs_at(missing, lo, hi, t),
    ensures
        lo < missing[j] < hi,
    decreases j,
{
    assert(climbs_at(missing, lo, hi, j));
    if j > 0 {
        lemma_climbs(missing, lo, hi, j - 1);
    }
}

proof fn lemma_climbs_between(missing: Seq<u8>, lo: u8, hi: u8, i: int, j: int)
    requires
        0 <= i < j < missing.len(),
        forall|t: int| 0 <= t < missing.len() ==> #[trigger] climbs_at(missing, lo, hi, t),
    ensures
        missing[i] < missing[j],
    decreases j - i,
{
    assert(climbs_at(missing, lo, hi, j));
    if j > i + 1 {
        lemma_climbs_between(missing, lo, hi, i, j - 1);
    }
}

/// The values of each channel's map, where it has one.
pub open spec fn values_of(entries: Seq<Option<AlphabetMap>>) -> Seq<Option<Seq<u8>>> {
    Seq::new(
        entries.len(),
        |c: int|
            match entries[c] {
                Some(m) => Some(m.values()),
                None => None,
            },
    )
}

/// Whether any channel has a map.
pub open spec fn any_map(vals: Seq<Option<Seq<u8>>>) -> bool {
    exists|c: int| 0 <= c < vals.len() && #[trigger] vals[c] is Some
}

/// The serialized entries of the first `n` channels: a map, or a single `FORM_NONE` byte.
pub open spec fn entries_bytes(vals: Seq<Option<Seq<u8>>>, n: nat) -> Seq<u8>
    decreases n,
{
    if n == 0 {
        Seq::empty()
    } else {
        entries_bytes(vals, (n - 1) as nat) + match vals[n - 1] {
            Some(v) => map_bytes(v),
            None => seq![FORM_NONE],
        }
    }
}

/// The serialized section: nothing at all when no channel has a map.
pub open spec fn section_bytes(vals: Seq<Option<Seq<u8>>>) -> Seq<u8> {
    if any_map(vals) {
        entries_bytes(vals, vals.len())
    } else {
        Seq::empty()
    }
}

/// What parsing `n` entries starting at byte `at` yields: each channel's used values, and where
/// the entries end; or the first rule the bytes break.
pub open spec fn parse_entries(b: Seq<u8>, at: nat, n: nat) -> Result<
    (Seq<Option<Seq<bool>>>, nat),
    BrpError,
>
    decreases n,
{
    if n == 0 {
        Ok((Seq::empty(), at))
    } else if at >= b.len() {
        Err(BrpError::AlphabetTruncated)
    } else if b[at as int] == FORM_NONE {
        match parse_entries(b, at + 1, (n - 1) as nat) {
            Ok((rest, end)) => Ok((seq![None::<Seq<bool>>] + rest, end)),
            Err(e) => Err(e),
        }
    } else {
        match parse_map(b[at as int], b.subrange(at + 1 as int, b.len() as int)) {
            Err(e) => Err(e),
            Ok((used, k)) => match parse_entries(b, at + 1 + k, (n - 1) as nat) {
                Ok((rest, end)) => Ok((seq![Some(used)] + rest, end)),
                Err(e) => Err(e),
            },
        }
    }
}

/// What parsing a section for `channels` channels yields.
pub open spec fn parse_section(b: Seq<u8>, channels: nat) -> Result<
    (Seq<Option<Seq<bool>>>, nat),
    BrpError,
> {
    match parse_entries(b, 0, channels) {
        Err(e) => Err(e),
        Ok((used, end)) => if exists|c: int| 0 <= c < used.len() && #[trigger] used[c] is Some {
            Ok((used, end))
        } else {
            Err(BrpError::AlphabetSectionEmpty)
        },
    }
}

/// One optional map per image channel, in channel order.
#[derive(Debug, Clone, PartialEq, Eq)]
pub struct AlphabetMaps {
    maps: Vec<Option<AlphabetMap>>,
}

impl AlphabetMaps {
    /// Each channel's map, where it has one.
    pub closed spec fn entries(&self) -> Seq<Option<AlphabetMap>> {
        self.maps@
    }

    /// Each channel's used values, where it has a map.
    pub open spec fn spec_values(&self) -> Seq<Option<Seq<u8>>> {
        values_of(self.entries())
    }

    pub open spec fn wf(&self) -> bool {
        forall|c: int|
            0 <= c < self.entries().len() ==> (#[trigger] self.entries()[c] matches Some(m)
                ==> m.wf())
    }

    /// No channel is remapped. The section then costs nothing at all.
    pub fn none(channels: usize) -> (r: Self)
        ensures
            r.wf(),
            r.entries().len() == channels,
            forall|c: int| 0 <= c < channels ==> #[trigger] r.entries()[c] is None,
    {
        let mut maps: Vec<Option<AlphabetMap>> = Vec::new();
        let mut c: usize = 0;
        while c < channels
            invariant
                c <= channels,
                maps@.len() == c,
                forall|k: int| 0 <= k < c ==> #[trigger] maps@[k] is None,
            decreases channels - c,
        {
            maps.push(None);
            c = c + 1;
        }
        AlphabetMaps { maps }
    }

    /// The map for one image channel, if it has one.
    pub fn map(&self, channel: usize) -> (r: Option<&AlphabetMap>)
        ensures
            match r {
                Some(m) => channel < self.entries().len() && self.entries()[channel as int]
                    == Some(*m),
                None => channel >= self.entries().len() || self.entries()[channel as int] is None,
            },
    {
        if channel < self.maps.len() {
            match &self.maps[channel] {
                Some(m) => Some(m),
                None => None,
            }
        } else {
            None
        }
    }

    /// Whether any channel is remapped. When false the header omits the section entirely.
    pub fn any(&self) -> (b: bool)
        ensures
            b == any_map(self.spec_values()),
    {
        let mut c: usize = 0;
        while c < self.maps.len()
            invariant
                c <= self.maps@.len(),
                forall|k: int| 0 <= k < c ==> #[trigger] self.maps@[k] is None,
            decreases self.maps@.len() - c,
        {
            if self.maps[c].is_some() {
                assert(self.spec_values()[c as int] is Some);
                return true;
            }
            c = c + 1;
        }
        proof {
            assert forall|k: int| 0 <= k < self.spec_values().len() implies !(
            #[trigger] self.spec_values()[k] is Some) by {
                assert(self.maps@[k] is None);
            }
        }
        false
    }

    /// Serialized length of the section.
    pub fn byte_len(&self) -> (n: usize)
        requires
            self.wf(),
            self.entries().len() <= 256,
        ensures
            n == section_bytes(self.spec_values()).len(),
            n <= 257 * self.entries().len(),
    {
        if !self.any() {
            return 0;
        }
        let ghost vals = self.spec_values();
        let mut total: usize = 0;
        let mut c: usize = 0;
        while c < self.maps.len()
            invariant
                self.wf(),
                vals == self.spec_values(),
                self.maps@.len() <= 256,
                c <= self.maps@.len(),
                total == entries_bytes(vals, c as nat).len(),
                total <= 257 * c,
            decreases self.maps@.len() - c,
        {
            let n = match &self.maps[c] {
                Some(m) => {
                    proof {
                        assert(self.entries()[c as int] matches Some(mm) && mm.wf());
                        lemma_map_bytes_len(m.values());
                        m.lemma_wf();
                    }
                    m.byte_len()
                },
                None => 1,
            };
            proof {
                assert(entries_bytes(vals, (c + 1) as nat) == entries_bytes(vals, c as nat) + match vals[c as int] {
                    Some(v) => map_bytes(v),
                    None => seq![FORM_NONE],
                });
            }
            total = total + n;
            c = c + 1;
        }
        total
    }

    /// Appends the section; nothing at all when no channel has a map.
    pub fn write_to(&self, out: &mut Vec<u8>)
        requires
            self.wf(),
        ensures
            final(out)@ == old(out)@ + section_bytes(self.spec_values()),
    {
        if !self.any() {
            assert(old(out)@ + section_bytes(self.spec_values()) =~= old(out)@);
            return;
        }
        let ghost vals = self.spec_values();
        let ghost start = out@;
        let mut c: usize = 0;
        while c < self.maps.len()
            invariant
                self.wf(),
                vals == self.spec_values(),
                c <= self.maps@.len(),
                out@ == start + entries_bytes(vals, c as nat),
            decreases self.maps@.len() - c,
        {
            match &self.maps[c] {
                Some(m) => {
                    proof {
                        assert(self.entries()[c as int] matches Some(mm) && mm.wf());
                    }
                    m.write_to(out);
                },
                None => {
                    out.push(FORM_NONE);
                },
            }
            proof {
                assert(out@ =~= start + entries_bytes(vals, (c + 1) as nat));
            }
            c = c + 1;
        }
    }

    /// Parses the section for `channels` channels, returning it and the bytes consumed.
    pub fn parse(bytes: &[u8], channels: usize) -> (r: Result<(Self, usize), BrpError>)
        ensures
            match parse_section(bytes@, channels as nat) {
                Ok((used, n)) => r matches Ok((maps, k)) && maps.wf() && k == n
                    && maps.entries().len() == channels && used.len() == channels
                    && forall|c: int|
                    0 <= c < channels ==> match (#[trigger] maps.entries()[c], used[c]) {
                        (Some(m), Some(u)) => lists_used(m.values(), u),
                        (None, None) => true,
                        _ => false,
                    },
                Err(e) => r == Err::<(Self, usize), BrpError>(e),
            },
            r matches Ok((_, k)) ==> k <= bytes@.len(),
    {
        let ghost b = bytes@;
        let mut maps: Vec<Option<AlphabetMap>> = Vec::new();
        let ghost mut done: Seq<Option<Seq<bool>>> = Seq::empty();
        let mut at: usize = 0;
        let mut c: usize = 0;
        while c < channels
            invariant
                b == bytes@,
                c <= channels,
                at <= b.len(),
                maps@.len() == c,
                done.len() == c,
                forall|k: int|
                    0 <= k < c ==> match (#[trigger] maps@[k], done[k]) {
                        (Some(m), Some(u)) => m.wf() && lists_used(m.values(), u),
                        (None, None) => true,
                        _ => false,
                    },
                parse_entries(b, 0, channels as nat) == match parse_entries(
                    b,
                    at as nat,
                    (channels - c) as nat,
                ) {
                    Ok((rest, end)) => Ok((done + rest, end)),
                    Err(e) => Err(e),
                },
            decreases channels - c,
        {
            if at >= bytes.len() {
                return Err(BrpError::AlphabetTruncated);
            }
            let form = bytes[at];
            if form == FORM_NONE {
                maps.push(None);
                proof {
                    let ghost old_done = done;
                    done = done.push(None);
                    assert forall|rest: Seq<Option<Seq<bool>>>| #[trigger] (old_done + (seq![
                        None::<Seq<bool>>,
                    ] + rest)) == done + rest by {
                        assert(old_done + (seq![None::<Seq<bool>>] + rest) =~= done + rest);
                    }
                }
                at = at + 1;
            } else {
                let tail = vstd::slice::slice_subrange(bytes, at + 1, bytes.len());
                assert(tail@ == b.subrange(at + 1 as int, b.len() as int));
                match AlphabetMap::parse(form, tail) {
                    Err(e) => {
                        return Err(e);
                    },
                    Ok((m, used)) => {
                        let ghost u = parse_map(form, tail@).unwrap().0;
                        proof {
                            let ghost old_done = done;
                            done = done.push(Some(u));
                            assert forall|rest: Seq<Option<Seq<bool>>>| #[trigger] (old_done + (
                            seq![Some(u)] + rest)) == done + rest by {
                                assert(old_done + (seq![Some(u)] + rest) =~= done + rest);
                            }
                        }
                        maps.push(Some(m));
                        at = at + 1 + used;
                    },
                }
            }
            c = c + 1;
        }
        proof {
            assert(done + Seq::<Option<Seq<bool>>>::empty() =~= done);
        }
        let result = AlphabetMaps { maps };
        if !result.any() {
            proof {
                assert forall|k: int| 0 <= k < done.len() implies !(#[trigger] done[k] is Some) by {
                    assert(result.spec_values()[k] is None);
                    assert(result.maps@[k] is None);
                }
            }
            return Err(BrpError::AlphabetSectionEmpty);
        }
        proof {
            let k = choose|k: int| 0 <= k < result.spec_values().len() && #[trigger] result.spec_values()[k] is Some;
            assert(result.maps@[k] is Some);
            assert(done[k] is Some);
        }
        Ok((result, at))
    }
}

/// A serialized map is three bytes of form and range, then its body.
pub proof fn lemma_map_bytes_len(vals: Seq<u8>)
    requires
        valid_values(vals),
    ensures
        map_bytes(vals).len() == 3 + body_len(vals),
{
    lemma_ascending_bounds(vals);
    if form_of(vals) == FORM_BITMAP {
        lemma_padding_range(span_of(lo_of(vals), hi_of(vals)));
        let s = padded(interior_bits(vals));
        assert(s.len() == 8 * bitmap_len(vals));
        assert(s.len() / 8 == bitmap_len(vals)) by {
            lemma_fundamental_div_mod_converse(s.len() as int, 8, bitmap_len(vals) as int, 0);
        }
    } else {
        lemma_missing_count(vals);
    }
}

/// How many values in `lo..v` the list uses.
pub open spec fn present_below(vals: Seq<u8>, lo: u8, v: nat) -> nat
    decreases v,
{
    if v <= lo {
        0
    } else {
        present_below(vals, lo, (v - 1) as nat) + (if vals.contains((v - 1) as u8) {
            1nat
        } else {
            0nat
        })
    }
}

proof fn lemma_present_missing(vals: Seq<u8>, lo: u8, v: nat)
    requires
        vals.contains(lo),
        lo < v <= 256,
    ensures
        present_below(vals, lo, v) + missing_below(vals, lo, v).len() == v - lo,
    decreases v,
{
    if v > lo + 1 {
        lemma_present_missing(vals, lo, (v - 1) as nat);
    } else {
        assert(present_below(vals, lo, (v - 1) as nat) == 0);
        assert(((v - 1) as u8) == lo);
    }
}

proof fn lemma_present_flat(vals: Seq<u8>, lo: u8, u: nat, v: nat)
    requires
        u <= v <= 256,
        forall|w: nat| u <= w < v ==> !#[trigger] vals.contains(w as u8),
    ensures
        present_below(vals, lo, v) == present_below(vals, lo, u),
    decreases v - u,
{
    if v > u {
        lemma_present_flat(vals, lo, u, (v - 1) as nat);
        assert(!vals.contains(((v - 1) as nat) as u8));
    }
}

proof fn lemma_present_at(vals: Seq<u8>, k: int)
    requires
        valid_values(vals),
        0 <= k < vals.len(),
    ensures
        present_below(vals, lo_of(vals), vals[k] as nat) == k,
        present_below(vals, lo_of(vals), vals[k] as nat + 1) == k + 1,
    decreases k,
{
    let lo = lo_of(vals);
    lemma_ascending_bounds(vals);
    if k > 0 {
        lemma_present_at(vals, k - 1);
        assert forall|w: nat| vals[k - 1] + 1 <= w < vals[k] implies !#[trigger] vals.contains(
            w as u8,
        ) by {
            if vals.contains(w as u8) {
                let j = choose|j: int| 0 <= j < vals.len() && vals[j] == w as u8;
                if j <= k - 1 {
                    if j < k - 1 {
                        assert(vals[j] < vals[k - 1]);
                    }
                } else if j >= k {
                    if j > k {
                        assert(vals[k] < vals[j]);
                    }
                }
            }
        }
        lemma_present_flat(vals, lo, vals[k - 1] as nat + 1, vals[k] as nat);
    }
    assert(vals.contains(vals[k]));
    assert(((vals[k] as nat + 1 - 1) as nat) as u8 == vals[k]);
}

/// The list body names exactly `gaps_of` values.
pub proof fn lemma_missing_count(vals: Seq<u8>)
    requires
        valid_values(vals),
    ensures
        missing_below(vals, lo_of(vals), hi_of(vals) as nat).len() == gaps_of(vals),
{
    let lo = lo_of(vals);
    let hi = hi_of(vals);
    lemma_ascending_bounds(vals);
    assert(vals.contains(lo));
    assert(vals.contains(hi));
    lemma_present_at(vals, vals.len() - 1);
    lemma_present_missing(vals, lo, hi as nat + 1);
    assert(((hi as nat + 1 - 1) as nat) as u8 == hi);
}

/// What decides whether a channel is worth remapping. Encoder policy, not part of the format.
#[derive(Debug, Clone, Copy, PartialEq, Eq, Structural)]
pub enum RemapChoice {
    /// Never compact an alphabet.
    Off,
    /// Compact a coded channel that has at least one gap inside its own range, when the table it
    /// would cost is worth less than an eighth of a bit per sample of that channel.
    Gaps,
}

impl Default for RemapChoice {
    fn default() -> (r: Self)
        ensures
            r == RemapChoice::Gaps,
    {
        RemapChoice::Gaps
    }
}

/// Bits needed to hold `v`. Zero for zero.
pub open spec fn bit_length(v: nat) -> nat
    decreases v,
{
    if v == 0 {
        0
    } else {
        1 + bit_length(v / 2)
    }
}

pub(crate) fn bit_length_of(v: u8) -> (n: u32)
    ensures
        n == bit_length(v as nat),
        n <= 8,
{
    let mut n: u32 = 0;
    let mut x = v;
    proof {
        lemma2_to64();
    }
    while x != 0
        invariant
            n + bit_length(x as nat) == bit_length(v as nat),
            n <= 8,
            x < pow2((8 - n) as nat),
        decreases x,
    {
        proof {
            lemma2_to64();
            if n >= 8 {
                assert(x < 1);
            }
            assert(x / 2 < pow2((8 - n - 1) as nat)) by {
                lemma_pow2_unfold((8 - n) as nat);
            }
        }
        x = x / 2;
        n = n + 1;
    }
    n
}

/// `bit_length` grows with its argument.
pub proof fn lemma_bit_length_mono(a: nat, b: nat)
    requires
        a <= b,
    ensures
        bit_length(a) <= bit_length(b),
    decreases b,
{
    if a > 0 {
        lemma_bit_length_mono(a / 2, b / 2);
    }
}

/// Whether sample `c + t * stride` exists and holds `v`, for some `t`: channel `c` uses `v`.
pub open spec fn channel_uses(data: Seq<u8>, stride: nat, c: nat, v: u8) -> bool {
    exists|t: nat| c + t * stride < data.len() && #[trigger] data[(c + t * stride) as int] == v
}

pub open spec fn channel_used(data: Seq<u8>, stride: nat, c: nat) -> Seq<bool> {
    Seq::new(256, |v: int| channel_uses(data, stride, c, v as u8))
}

/// How many samples channel `c` has.
pub open spec fn channel_samples(len: nat, stride: nat, c: nat) -> nat {
    if c < len {
        ((len - 1 - c) / stride as int + 1) as nat
    } else {
        0
    }
}

/// A map over `vals` pays for itself on a channel of `samples` samples: it has a gap, narrows
/// each sample by at least one bit, and saves at least four times its own size.
pub open spec fn worth_mapping(vals: Seq<u8>, samples: nat) -> bool {
    let narrowing = bit_length((hi_of(vals) - lo_of(vals)) as nat) - bit_length(
        (vals.len() - 1) as nat,
    );
    &&& gaps_of(vals) > 0
    &&& narrowing > 0
    &&& samples * narrowing >= 4 * (3 + body_len(vals)) * 8
}

/// The values channel `c` uses, and how many samples it has.
pub(crate) fn scan_channel(data: &[u8], stride: usize, c: usize) -> (r: (Vec<bool>, u64))
    requires
        0 <= c < stride,
    ensures
        r.0@ == channel_used(data@, stride as nat, c as nat),
        r.1 == channel_samples(data@.len(), stride as nat, c as nat),
{
    let mut used: Vec<bool> = vec![false; 256];
    let mut samples: u64 = 0;
    let len = data.len();
    if c >= len {
        proof {
            assert forall|v: int| 0 <= v < 256 implies used@[v] == channel_uses(
                data@,
                stride as nat,
                c as nat,
                v as u8,
            ) by {
                if channel_uses(data@, stride as nat, c as nat, v as u8) {
                    let t = choose|t: nat|
                        c + t * stride < data@.len() && #[trigger] data@[c + t * stride] == v as u8;
                    assert(t * stride >= 0) by (nonlinear_arith);
                }
            }
            assert(used@ =~= channel_used(data@, stride as nat, c as nat));
        }
        return (used, 0);
    }
    let mut i = c;
    while i < len
        invariant
            len == data@.len(),
            0 <= c < stride,
            c < len,
            used@.len() == 256,
            i <= len,
            samples <= len,
            i < len ==> i == c + samples * stride,
            i == len ==> samples >= 1 && c + (samples - 1) * stride < len && c + samples * stride
                >= len,
            forall|v: int|
                0 <= v < 256 ==> #[trigger] used@[v] == exists|t: nat|
                    t < samples && #[trigger] data@[c + t * stride] == v as u8,
        decreases len - i,
    {
        let ghost before = used@;
        assert(i == c + samples * stride);
        let x = data[i];
        used.set(x as usize, true);
        proof {
            assert forall|v: int| 0 <= v < 256 implies #[trigger] used@[v] == exists|t: nat|
                t < samples + 1 && #[trigger] data@[c + t * stride] == v as u8 by {
                if v == x {
                    assert(data@[c + samples * stride] == v as u8);
                } else {
                    if exists|t: nat| t < samples + 1 && #[trigger] data@[c + t * stride] == v as u8 {
                        let t = choose|t: nat|
                            t < samples + 1 && #[trigger] data@[c + t * stride] == v as u8;
                        assert(t < samples);
                    }
                }
            }
            assert(samples + 1 <= len) by (nonlinear_arith)
                requires
                    c + samples * stride < len,
                    stride >= 1,
            ;
        }
        let ghost old_samples = samples;
        let ghost old_i = i;
        samples = samples + 1;
        assert(c + samples * stride == old_i + stride) by (nonlinear_arith)
            requires
                old_i == c + old_samples * stride,
                samples == old_samples + 1,
        ;
        if len - i > stride {
            i = i + stride;
        } else {
            i = len;
        }
    }
    proof {
        let n = samples;
        assert(c + (n - 1) * stride < len);
        assert(c + n * stride >= len);
        assert forall|v: int| 0 <= v < 256 implies used@[v] == channel_uses(
            data@,
            stride as nat,
            c as nat,
            v as u8,
        ) by {
            let cn = c as nat;
            let sn = stride as nat;
            if channel_uses(data@, sn, cn, v as u8) {
                let t = choose|t: nat|
                    cn + t * sn < data@.len() && #[trigger] data@[(cn + t * sn) as int] == v as u8;
                if t >= n {
                    assert(t * sn >= n * sn) by (nonlinear_arith)
                        requires
                            t >= n,
                    ;
                }
                assert(t < samples);
                assert(data@[c + t * stride] == v as u8);
                assert(used@[v]);
            }
            if used@[v] {
                let t = choose|t: nat| t < samples && #[trigger] data@[c + t * stride] == v as u8;
                assert(cn + t * sn < len) by (nonlinear_arith)
                    requires
                        t < n,
                        cn + (n - 1) * sn < len,
                ;
                assert(data@[(cn + t * sn) as int] == v as u8);
            }
        }
        assert(used@ =~= channel_used(data@, stride as nat, c as nat));
        assert(n == (len - 1 - c) / stride as int + 1) by {
            lemma_fundamental_div_mod((len - 1 - c) as int, stride as int);
            lemma_mod_pos_bound((len - 1 - c) as int, stride as int);
            assert((len - 1 - c) / stride as int == n - 1) by (nonlinear_arith)
                requires
                    c + (n - 1) * stride <= len - 1,
                    c + n * stride >= len,
                    len - 1 - c == stride * ((len - 1 - c) / (stride as int)) + (len - 1 - c) % (
                    stride as int),
                    0 <= (len - 1 - c) % (stride as int) < stride,
                    stride > 0,
            ;
        }
    }
    (used, samples)
}

/// The map `plan` gives channel `c`, as its value list, or `None`.
pub open spec fn planned_values(data: Seq<u8>, stride: nat, choice: RemapChoice, c: nat) -> Option<
    Seq<u8>,
> {
    let used = channel_used(data, stride, c);
    let samples = channel_samples(data.len(), stride, c);
    if choice == RemapChoice::Gaps && (exists|vals: Seq<u8>|
        lists_used(vals, used) && vals.len() >= 1 && worth_mapping(vals, samples)) {
        Some(choose|vals: Seq<u8>| lists_used(vals, used) && vals.len() >= 1 && worth_mapping(vals, samples))
    } else {
        None
    }
}

/// Chooses a map for every channel that wants one. `data` is the untouched sample buffer.
pub fn plan(data: &[u8], stride: usize, choice: RemapChoice) -> (maps: AlphabetMaps)
    ensures
        maps.wf(),
        maps.entries().len() == stride,
        forall|c: int|
            0 <= c < stride ==> match #[trigger] maps.entries()[c] {
                Some(m) => choice == RemapChoice::Gaps && lists_used(
                    m.values(),
                    channel_used(data@, stride as nat, c as nat),
                ) && worth_mapping(
                    m.values(),
                    channel_samples(data@.len(), stride as nat, c as nat),
                ),
                None => choice == RemapChoice::Off || forall|vals: Seq<u8>|
                    #[trigger] lists_used(vals, channel_used(data@, stride as nat, c as nat)) && vals.len()
                        >= 1 ==> !worth_mapping(
                        vals,
                        channel_samples(data@.len(), stride as nat, c as nat),
                    ),
            },
{
    let mut maps = AlphabetMaps::none(stride);
    if choice == RemapChoice::Off {
        return maps;
    }
    let mut c: usize = 0;
    while c < stride
        invariant
            choice == RemapChoice::Gaps,
            c <= stride,
            maps.wf(),
            maps.entries().len() == stride,
            forall|k: int| c <= k < stride ==> #[trigger] maps.entries()[k] is None,
            forall|k: int|
                0 <= k < c ==> match #[trigger] maps.entries()[k] {
                    Some(m) => lists_used(m.values(), channel_used(data@, stride as nat, k as nat))
                        && worth_mapping(
                        m.values(),
                        channel_samples(data@.len(), stride as nat, k as nat),
                    ),
                    None => forall|vals: Seq<u8>|
                        #[trigger] lists_used(vals, channel_used(data@, stride as nat, k as nat)) && vals.len()
                            >= 1 ==> !worth_mapping(
                            vals,
                            channel_samples(data@.len(), stride as nat, k as nat),
                        ),
                },
        decreases stride - c,
    {
        let (used, samples) = scan_channel(data, stride, c);
        let ghost u = used@;
        let ghost n = samples as nat;
        match AlphabetMap::from_used(&used) {
            None => {
                proof {
                    assert forall|vals: Seq<u8>|
                        #[trigger] lists_used(vals, u) && vals.len() >= 1 implies !worth_mapping(vals, n) by {
                        assert(vals.contains(vals[0]));
                        assert(u[vals[0] as int]);
                    }
                }
            },
            Some(map) => {
                proof {
                    map.lemma_wf();
                    lemma_lists_used_unique(map.values(), u);
                    lemma_bit_length_mono(
                        (map.values().len() - 1) as nat,
                        (hi_of(map.values()) - lo_of(map.values())) as nat,
                    );
                }
                let gaps = map.interior_gaps();
                let wide = bit_length_of(map.hi - map.lo);
                let narrow = bit_length_of((map.alphabet_size() - 1) as u8);
                let narrowing = (wide - narrow) as u64;
                let threshold = 32 * map.byte_len() as u64;
                assert(narrowing <= 8);
                assert(threshold <= 32 * 257);
                let pays = if samples >= threshold {
                    true
                } else {
                    assert(samples * narrowing <= 32 * 257 * 8) by (nonlinear_arith)
                        requires
                            samples < 32 * 257,
                            narrowing <= 8,
                    ;
                    samples * narrowing >= threshold
                };
                proof {
                    if samples >= threshold && narrowing > 0 {
                        assert(samples * narrowing >= samples) by (nonlinear_arith)
                            requires
                                narrowing >= 1,
                        ;
                    }
                }
                if gaps != 0 && narrowing != 0 && pays {
                    maps.set_map(c, map);
                } else {
                    proof {
                        assert forall|vals: Seq<u8>|
                            #[trigger] lists_used(vals, u) && vals.len() >= 1 implies !worth_mapping(
                            vals,
                            n,
                        ) by {
                            lemma_lists_used_unique(vals, u);
                            assert(vals == map.values());
                        }
                    }
                }
            },
        }
        c = c + 1;
    }
    maps
}

impl AlphabetMaps {
    /// Gives channel `c` the map `m`.
    pub fn set_map(&mut self, c: usize, m: AlphabetMap)
        requires
            old(self).wf(),
            m.wf(),
            c < old(self).entries().len(),
        ensures
            final(self).wf(),
            final(self).entries() == old(self).entries().update(c as int, Some(m)),
    {
        self.maps.set(c, Some(m));
    }
}

/// Well-formed maps over the same value list rank every value alike.
pub proof fn lemma_same_values_same_ranks(m1: AlphabetMap, m2: AlphabetMap)
    requires
        m1.wf(),
        m2.wf(),
        m1.values() == m2.values(),
    ensures
        forall|v: u8| #[trigger] m1.spec_rank(v) == m2.spec_rank(v),
{
    assert forall|v: u8| #[trigger] m1.spec_rank(v) == m2.spec_rank(v) by {
        if m1.inverse@.contains(v) {
            let r = choose|r: int| 0 <= r < m1.inverse@.len() && m1.inverse@[r] == v;
            assert(m1.forward@[m1.inverse@[r] as int] == r);
            assert(m2.forward@[m2.inverse@[r] as int] == r);
        }
    }
}

/// A well-formed map lists at least one value.
pub proof fn lemma_map_values_nonempty(m: AlphabetMap)
    requires
        m.wf(),
    ensures
        m.values().len() >= 1,
{
}

/// Two ascending lists of the same values are the same list; and a used set has at most one.
pub proof fn lemma_lists_used_unique(vals: Seq<u8>, used: Seq<bool>)
    requires
        lists_used(vals, used),
    ensures
        forall|other: Seq<u8>| #[trigger] lists_used(other, used) ==> other == vals,
{
    assert forall|other: Seq<u8>| #[trigger] lists_used(other, used) implies other == vals by {
        lemma_ascending_same_members(other, vals);
    }
}

proof fn lemma_ascending_same_members(a: Seq<u8>, b: Seq<u8>)
    requires
        ascending(a),
        ascending(b),
        forall|v: u8| #[trigger] a.contains(v) == b.contains(v),
    ensures
        a == b,
    decreases a.len() + b.len(),
{
    if a.len() == 0 {
        if b.len() > 0 {
            assert(b.contains(b[0]));
            assert(a.contains(b[0]) == b.contains(b[0]));
        }
        assert(a =~= b);
    } else if b.len() == 0 {
        assert(a.contains(a[0]));
        assert(a.contains(a[0]) == b.contains(a[0]));
    } else {
        // The largest member of each is the other's largest member too.
        let x = a[a.len() - 1];
        let y = b[b.len() - 1];
        assert(a.contains(x));
        assert(b.contains(y));
        assert(a.contains(x) == b.contains(x));
        assert(a.contains(y) == b.contains(y));
        let i = choose|i: int| 0 <= i < b.len() && b[i] == x;
        let j = choose|j: int| 0 <= j < a.len() && a[j] == y;
        if i < b.len() - 1 {
            assert(x < y);
            assert(a[j] <= x) by {
                if j < a.len() - 1 {
                    assert(a[j] < a[a.len() - 1]);
                }
            }
        }
        if j < a.len() - 1 {
            assert(a[j] < a[a.len() - 1]);
            assert(b[i] <= y) by {
                if i < b.len() - 1 {
                    assert(b[i] < b[b.len() - 1]);
                }
            }
        }
        assert(x == y);
        let a2 = a.drop_last();
        let b2 = b.drop_last();
        assert forall|v: u8| #[trigger] a2.contains(v) == b2.contains(v) by {
            if a2.contains(v) {
                let k = choose|k: int| 0 <= k < a2.len() && a2[k] == v;
                assert(a[k] < x);
                assert(b.contains(v)) by {
                    assert(a.contains(v));
                }
                let m = choose|m: int| 0 <= m < b.len() && b[m] == v;
                assert(m != b.len() - 1);
                assert(b2[m] == v);
            }
            if b2.contains(v) {
                let k = choose|k: int| 0 <= k < b2.len() && b2[k] == v;
                assert(b[k] < y);
                assert(a.contains(v)) by {
                    assert(b.contains(v));
                }
                let m = choose|m: int| 0 <= m < a.len() && a[m] == v;
                assert(m != a.len() - 1);
                assert(a2[m] == v);
            }
        }
        lemma_ascending_same_members(a2, b2);
        assert(a =~= a2.push(x));
        assert(b =~= b2.push(y));
    }
}

/// The map, if any, that governs sample `i`.
pub open spec fn map_at(entries: Seq<Option<AlphabetMap>>, stride: nat, i: int) -> Option<
    AlphabetMap,
> {
    let c = i % (stride as int);
    if c < entries.len() {
        entries[c]
    } else {
        None
    }
}

/// Sample `i` after mapping: its rank, on a channel with a map; unchanged elsewhere.
pub open spec fn ranked(entries: Seq<Option<AlphabetMap>>, stride: nat, i: int, v: u8) -> u8 {
    match map_at(entries, stride, i) {
        Some(m) => m.spec_rank(v),
        None => v,
    }
}

/// Sample `i` holds a rank its channel's map has no value for.
pub open spec fn rank_invalid(entries: Seq<Option<AlphabetMap>>, stride: nat, i: int, r: u8) -> bool {
    match map_at(entries, stride, i) {
        Some(m) => r >= m.values().len(),
        None => false,
    }
}

/// Sample `i` after unmapping: the value its rank stands for, on a channel with a map.
pub open spec fn unranked(entries: Seq<Option<AlphabetMap>>, stride: nat, i: int, r: u8) -> u8 {
    match map_at(entries, stride, i) {
        Some(m) => m.values()[r as int],
        None => r,
    }
}

/// `e` reports an invalid rank at sample `i`, and no invalid sample is handled before it.
pub open spec fn is_first_invalid(
    entries: Seq<Option<AlphabetMap>>,
    stride: nat,
    data: Seq<u8>,
    i: int,
    e: BrpError,
) -> bool {
    &&& 0 <= i < data.len()
    &&& rank_invalid(entries, stride, i, data[i])
    &&& match map_at(entries, stride, i) {
        Some(m) => e == BrpError::AlphabetRankOutOfRange {
            rank: data[i],
            size: m.values().len() as usize,
        },
        None => false,
    }
    &&& forall|j: int|
        0 <= j < data.len() && #[trigger] rank_invalid(entries, stride, j, data[j])
            ==> !handled_before(j, i, stride)
}

/// Sample `j` is handled before sample `i`: channels in order, each channel front to back.
pub open spec fn handled_before(j: int, i: int, stride: nat) -> bool {
    let cj = j % (stride as int);
    let ci = i % (stride as int);
    cj < ci || (cj == ci && j < i)
}

/// Two indices of one channel less than a stride apart are the same index.
proof fn lemma_same_channel(i: int, j: int, stride: int)
    requires
        stride > 0,
        0 <= i <= j < i + stride,
        i % stride == j % stride,
    ensures
        i == j,
{
    lemma_fundamental_div_mod(i, stride);
    lemma_fundamental_div_mod(j, stride);
    lemma_mod_pos_bound(i, stride);
    lemma_mod_pos_bound(j, stride);
    assert(i / stride == j / stride) by (nonlinear_arith)
        requires
            i == stride * (i / stride) + i % stride,
            j == stride * (j / stride) + j % stride,
            i % stride == j % stride,
            i <= j < i + stride,
            stride > 0,
    ;
}

/// Adding a stride stays on the same channel.
proof fn lemma_next_in_channel(i: int, stride: int)
    requires
        stride > 0,
        i >= 0,
    ensures
        (i + stride) % stride == i % stride,
{
    lemma_fundamental_div_mod(i, stride);
    lemma_mod_pos_bound(i, stride);
    assert(i + stride == (i / stride + 1) * stride + i % stride) by (nonlinear_arith)
        requires
            i == stride * (i / stride) + i % stride,
    ;
    lemma_fundamental_div_mod_converse(i + stride, stride, i / stride + 1, i % stride);
}

/// A sample's channel index is at most its own index.
proof fn lemma_mod_le(j: int, stride: int)
    requires
        stride > 0,
        j >= 0,
    ensures
        j % stride <= j,
{
    lemma_fundamental_div_mod(j, stride);
    lemma_div_pos_is_pos(j, stride);
    assert(stride * (j / stride) >= 0) by (nonlinear_arith)
        requires
            stride > 0,
            j / stride >= 0,
    ;
}

/// Replaces every sample of a mapped channel with its rank, in place.
pub fn apply_in_place(data: &mut Vec<u8>, stride: usize, maps: &AlphabetMaps)
    requires
        maps.wf(),
        stride > 0,
    ensures
        final(data)@.len() == old(data)@.len(),
        forall|i: int|
            0 <= i < old(data)@.len() ==> #[trigger] final(data)@[i] == ranked(
                maps.entries(),
                stride as nat,
                i,
                old(data)@[i],
            ),
{
    let ghost src = data@;
    let ghost e = maps.entries();
    let ghost sn = stride as nat;
    let len = data.len();
    let mut c: usize = 0;
    while c < stride
        invariant
            maps.wf(),
            e == maps.entries(),
            sn == stride,
            stride > 0,
            c <= stride,
            len == src.len(),
            src == old(data)@,
            data@.len() == len,
            forall|j: int|
                0 <= j < len ==> #[trigger] data@[j] == (if j % (stride as int) < c {
                    ranked(e, sn, j, src[j])
                } else {
                    src[j]
                }),
        decreases stride - c,
    {
        match maps.map(c) {
            Some(map) => {
                proof {
                    assert(maps.entries()[c as int] matches Some(mm) && mm.wf());
                }
                let mut i = c;
                proof {
                    lemma_small_mod(c as nat, stride as nat);
                    assert forall|j: int| 0 <= j < len implies #[trigger] data@[j] == (if j % (
                    stride as int) < c || (j % (stride as int) == c && j < i) {
                        ranked(e, sn, j, src[j])
                    } else {
                        src[j]
                    }) by {
                        lemma_mod_le(j, stride as int);
                    }
                }
                while i < len
                    invariant
                        maps.wf(),
                        map.wf(),
                        e == maps.entries(),
                        c < e.len(),
                        e[c as int] == Some(*map),
                        sn == stride,
                        stride > 0,
                        c < stride,
                        len == src.len(),
                        data@.len() == len,
                        c <= i,
                        i <= len || i == c,
                        src == old(data)@,
                        i < len ==> (i as int) % (stride as int) == c,
                        forall|j: int|
                            0 <= j < len ==> #[trigger] data@[j] == (if j % (stride as int) < c || (j
                                % (stride as int) == c && j < i) {
                                ranked(e, sn, j, src[j])
                            } else {
                                src[j]
                            }),
                    decreases len - i,
                {
                    let v = map.rank(data[i]);
                    data.set(i, v);
                    let ghost old_i = i as int;
                    if len - i > stride {
                        i = i + stride;
                        proof {
                            lemma_next_in_channel(old_i, stride as int);
                        }
                    } else {
                        i = len;
                    }
                    proof {
                        assert forall|j: int| 0 <= j < len implies #[trigger] data@[j] == (if j % (
                        stride as int) < c || (j % (stride as int) == c && j < i) {
                            ranked(e, sn, j, src[j])
                        } else {
                            src[j]
                        }) by {
                            if j % (stride as int) == c && old_i < j && j < i {
                                lemma_same_channel(old_i, j, stride as int);
                            }
                        }
                    }
                }
            },
            None => {},
        }
        proof {
            assert forall|j: int| 0 <= j < len implies #[trigger] data@[j] == (if j % (stride as int)
                < c + 1 {
                ranked(e, sn, j, src[j])
            } else {
                src[j]
            }) by {
                if j % (stride as int) == c {
                    if map_at(e, sn, j) is None {
                    }
                }
            }
        }
        c = c + 1;
    }
    proof {
        assert forall|j: int| 0 <= j < len implies #[trigger] data@[j] == ranked(e, sn, j, src[j]) by {
            lemma_mod_pos_bound(j, stride as int);
        }
    }
}

/// Reverses [`apply_in_place`], rejecting ranks the map has no value for.
///
/// Runs last in a decode, after aliases: an alias copies its target's ranks, and each channel
/// then turns its own ranks back with its own table.
pub fn undo_in_place(data: &mut Vec<u8>, stride: usize, maps: &AlphabetMaps) -> (r: Result<
    (),
    BrpError,
>)
    requires
        maps.wf(),
        stride > 0,
    ensures
        final(data)@.len() == old(data)@.len(),
        match r {
            Ok(()) => forall|i: int|
                0 <= i < old(data)@.len() ==> !rank_invalid(
                    maps.entries(),
                    stride as nat,
                    i,
                    old(data)@[i],
                ) && #[trigger] final(data)@[i] == unranked(
                    maps.entries(),
                    stride as nat,
                    i,
                    old(data)@[i],
                ),
            Err(e) => exists|i: int|
                #[trigger] is_first_invalid(maps.entries(), stride as nat, old(data)@, i, e) && forall|
                    j: int,
                | 0 <= j < old(data)@.len() ==> #[trigger] final(data)@[j] == if handled_before(
                    j,
                    i,
                    stride as nat,
                ) {
                    unranked(maps.entries(), stride as nat, j, old(data)@[j])
                } else {
                    old(data)@[j]
                },
        },
{
    let ghost src = data@;
    let ghost e = maps.entries();
    let ghost sn = stride as nat;
    let len = data.len();
    let mut c: usize = 0;
    while c < stride
        invariant
            maps.wf(),
            e == maps.entries(),
            sn == stride,
            stride > 0,
            c <= stride,
            len == src.len(),
            src == old(data)@,
            data@.len() == len,
            forall|j: int|
                0 <= j < len ==> #[trigger] data@[j] == (if j % (stride as int) < c {
                    unranked(e, sn, j, src[j])
                } else {
                    src[j]
                }),
            forall|j: int|
                0 <= j < len && j % (stride as int) < c ==> !#[trigger] rank_invalid(
                    e,
                    sn,
                    j,
                    src[j],
                ),
        decreases stride - c,
    {
        match maps.map(c) {
            Some(map) => {
                proof {
                    assert(maps.entries()[c as int] matches Some(mm) && mm.wf());
                }
                let mut i = c;
                proof {
                    lemma_small_mod(c as nat, stride as nat);
                    assert forall|j: int| 0 <= j < len implies #[trigger] data@[j] == (if j % (
                    stride as int) < c || (j % (stride as int) == c && j < i) {
                        unranked(e, sn, j, src[j])
                    } else {
                        src[j]
                    }) by {
                        lemma_mod_le(j, stride as int);
                    }
                    assert forall|j: int|
                        0 <= j < len && (j % (stride as int) < c || (j % (stride as int) == c
                            && j < i)) implies !#[trigger] rank_invalid(e, sn, j, src[j]) by {
                        lemma_mod_le(j, stride as int);
                    }
                }
                while i < len
                    invariant
                        maps.wf(),
                        map.wf(),
                        e == maps.entries(),
                        c < e.len(),
                        e[c as int] == Some(*map),
                        sn == stride,
                        stride > 0,
                        c < stride,
                        len == src.len(),
                        data@.len() == len,
                        c <= i,
                        i <= len || i == c,
                        src == old(data)@,
                        i < len ==> (i as int) % (stride as int) == c,
                        forall|j: int|
                            0 <= j < len ==> #[trigger] data@[j] == (if j % (stride as int) < c || (j
                                % (stride as int) == c && j < i) {
                                unranked(e, sn, j, src[j])
                            } else {
                                src[j]
                            }),
                        forall|j: int|
                            0 <= j < len && (j % (stride as int) < c || (j % (stride as int) == c
                                && j < i)) ==> !#[trigger] rank_invalid(e, sn, j, src[j]),
                    decreases len - i,
                {
                    match map.value(data[i]) {
                        Ok(v) => {
                            data.set(i, v);
                        },
                        Err(err) => {
                            proof {
                                assert(rank_invalid(e, sn, i as int, src[i as int]));
                                assert(is_first_invalid(e, sn, src, i as int, err));
                                assert forall|j: int|
                                    0 <= j < len && #[trigger] rank_invalid(
                                        e,
                                        sn,
                                        j,
                                        src[j],
                                    ) implies !handled_before(j, i as int, sn) by {
                                }
                                lemma_small_mod(c as nat, stride as nat);
                                assert forall|j: int| 0 <= j < len implies #[trigger] data@[j] == if handled_before(
                                    j,
                                    i as int,
                                    sn,
                                ) {
                                    unranked(e, sn, j, src[j])
                                } else {
                                    src[j]
                                } by {}
                            }
                            return Err(err);
                        },
                    }
                    let ghost old_i = i as int;
                    if len - i > stride {
                        i = i + stride;
                        proof {
                            lemma_next_in_channel(old_i, stride as int);
                        }
                    } else {
                        i = len;
                    }
                    proof {
                        assert forall|j: int| 0 <= j < len implies #[trigger] data@[j] == (if j % (
                        stride as int) < c || (j % (stride as int) == c && j < i) {
                            unranked(e, sn, j, src[j])
                        } else {
                            src[j]
                        }) by {
                            if j % (stride as int) == c && old_i < j && j < i {
                                lemma_same_channel(old_i, j, stride as int);
                            }
                        }
                        assert forall|j: int|
                            0 <= j < len && (j % (stride as int) < c || (j % (stride as int) == c
                                && j < i)) implies !#[trigger] rank_invalid(e, sn, j, src[j]) by {
                            if j % (stride as int) == c && old_i < j && j < i {
                                lemma_same_channel(old_i, j, stride as int);
                            }
                        }
                    }
                }
            },
            None => {},
        }
        proof {
            assert forall|j: int| 0 <= j < len implies #[trigger] data@[j] == (if j % (stride as int)
                < c + 1 {
                unranked(e, sn, j, src[j])
            } else {
                src[j]
            }) by {
                if j % (stride as int) == c {
                    if map_at(e, sn, j) is None {
                    }
                }
            }
        }
        c = c + 1;
    }
    proof {
        assert forall|j: int| 0 <= j < len implies !rank_invalid(e, sn, j, src[j]) && #[trigger] data@[j]
            == unranked(e, sn, j, src[j]) by {
            lemma_mod_pos_bound(j, stride as int);
        }
    }
    Ok(())
}

/// Unmapping undoes mapping: on a buffer whose every sample on a mapped channel is a value of
/// that channel's map, each rank [`apply_in_place`] writes is one [`undo_in_place`] accepts,
/// and it turns back into the sample it came from.
pub proof fn lemma_unmapping_restores(entries: Seq<Option<AlphabetMap>>, stride: nat, data: Seq<u8>)
    requires
        stride > 0,
        forall|c: int| 0 <= c < entries.len() ==> (#[trigger] entries[c] matches Some(m) ==> m.wf()),
        forall|i: int|
            0 <= i < data.len() ==> (map_at(entries, stride, i) matches Some(m) ==> m.values().contains(
                #[trigger] data[i],
            )),
    ensures
        forall|i: int|
            0 <= i < data.len() ==> !rank_invalid(entries, stride, i, ranked(entries, stride, i, data[i]))
                && unranked(entries, stride, i, #[trigger] ranked(entries, stride, i, data[i]))
                == data[i],
{
    assert forall|i: int| 0 <= i < data.len() implies !rank_invalid(
        entries,
        stride,
        i,
        ranked(entries, stride, i, data[i]),
    ) && unranked(entries, stride, i, #[trigger] ranked(entries, stride, i, data[i])) == data[i] by {
        if let Some(m) = map_at(entries, stride, i) {
            lemma_mod_pos_bound(i, stride as int);
            assert(entries[i % (stride as int)] == Some(m));
            m.lemma_wf();
            assert(m.values().contains(data[i]));
        }
    }
}

/// The maps [`plan`] chooses cover the buffer they were planned from: every sample of a mapped
/// channel is one of its map's values.
pub proof fn lemma_planned_maps_cover(data: Seq<u8>, stride: nat, maps: AlphabetMaps)
    requires
        stride > 0,
        maps.entries().len() == stride,
        forall|c: int|
            0 <= c < stride ==> (#[trigger] maps.entries()[c] matches Some(m) ==> lists_used(
                m.values(),
                channel_used(data, stride, c as nat),
            )),
    ensures
        forall|i: int|
            0 <= i < data.len() ==> (map_at(maps.entries(), stride, i) matches Some(m)
                ==> m.values().contains(#[trigger] data[i])),
{
    assert forall|i: int| 0 <= i < data.len() implies (map_at(maps.entries(), stride, i) matches Some(
        m,
    ) ==> m.values().contains(#[trigger] data[i])) by {
        if let Some(m) = map_at(maps.entries(), stride, i) {
            let c = i % (stride as int);
            lemma_fundamental_div_mod(i, stride as int);
            lemma_mod_pos_bound(i, stride as int);
            let t = (i / (stride as int)) as nat;
            assert(i / (stride as int) >= 0) by {
                lemma_div_pos_is_pos(i, stride as int);
            }
            assert(c + t * stride == i) by (nonlinear_arith)
                requires
                    i == stride * (i / (stride as int)) + i % (stride as int),
                    t == i / (stride as int),
                    c == i % (stride as int),
            ;
            assert(data[((c as nat) + t * stride) as int] == data[i]);
            assert(channel_uses(data, stride, c as nat, data[i]));
            assert(channel_used(data, stride, c as nat)[data[i] as int]);
            assert(m.values().contains(data[i]) == channel_used(data, stride, c as nat)[data[i] as int]);
        }
    }
}

/// The used-flag table of a value list.
pub open spec fn used_table(vals: Seq<u8>) -> Seq<bool> {
    Seq::new(256, |v: int| vals.contains(v as u8))
}

/// Bits packed into bytes read back as the same bits.
pub proof fn lemma_bits_of_pack(s: Seq<bool>)
    requires
        s.len() % 8 == 0,
    ensures
        byte_bits(pack_bits(s)) == s,
{
    let p = pack_bits(s);
    lemma_byte_bits_len(p);
    lemma2_to64();
    assert(8 * p.len() == s.len()) by {
        lemma_fundamental_div_mod(s.len() as int, 8);
    }
    assert forall|k: int| 0 <= k < s.len() implies #[trigger] byte_bits(p)[k] == s[k] by {
        lemma_byte_bits_index(p, k);
        let q = k / 8;
        let r = k % 8;
        lemma_fundamental_div_mod(k, 8);
        assert(0 <= q < p.len()) by {
            lemma_fundamental_div_mod(s.len() as int, 8);
        }
        let t = s.subrange(8 * q, 8 * q + 8);
        lemma_bits_val_bound(t);
        assert(p[q] == bits_val(t));
        lemma_bits_of_bits_val(t);
        assert(t[r] == s[k]);
    }
    assert(byte_bits(p) =~= s);
}

/// What the list body names: the unused values strictly between `lo` and `v`, ascending.
proof fn lemma_missing_below(vals: Seq<u8>, lo: u8, v: nat)
    requires
        v <= 256,
    ensures
        forall|u: u8| #[trigger] missing_below(vals, lo, v).contains(u) <==> (lo < u < v
            && !vals.contains(u)),
        forall|k: int|
            0 <= k < missing_below(vals, lo, v).len() ==> lo < #[trigger] missing_below(
                vals,
                lo,
                v,
            )[k] < v,
        forall|i: int, j: int|
            0 <= i < j < missing_below(vals, lo, v).len() ==> missing_below(vals, lo, v)[i]
                < missing_below(vals, lo, v)[j],
    decreases v,
{
    if v > lo + 1 {
        lemma_missing_below(vals, lo, (v - 1) as nat);
        let prev = missing_below(vals, lo, (v - 1) as nat);
        let x = (v - 1) as u8;
        if !vals.contains(x) {
            let cur = prev.push(x);
            assert forall|u: u8| #[trigger] cur.contains(u) <==> (lo < u < v && !vals.contains(u)) by {
                if u == x {
                    assert(cur[cur.len() - 1] == x);
                    assert(cur.contains(u));
                } else {
                    if cur.contains(u) {
                        let k = choose|k: int| 0 <= k < cur.len() && cur[k] == u;
                        assert(prev[k] == u);
                        assert(prev.contains(u));
                    }
                    if prev.contains(u) {
                        let k = choose|k: int| 0 <= k < prev.len() && prev[k] == u;
                        assert(cur[k] == u);
                        assert(cur.contains(u));
                    }
                    assert(cur.contains(u) == prev.contains(u));
                    assert(prev.contains(u) <==> (lo < u < v - 1 && !vals.contains(u)));
                }
            }
        }
    }
}

/// A list that climbs strictly inside `lo..hi` has no disorder.
proof fn lemma_climbing_no_disorder(missing: Seq<u8>, lo: u8, hi: u8, k: nat)
    requires
        forall|j: int| 0 <= j < missing.len() ==> lo < #[trigger] missing[j] < hi,
        forall|i: int, j: int| 0 <= i < j < missing.len() ==> missing[i] < missing[j],
    ensures
        first_disorder(missing, lo, hi, k) == None::<nat>,
    decreases missing.len() - k,
{
    if k < missing.len() {
        lemma_climbing_no_disorder(missing, lo, hi, k + 1);
        if k > 0 {
            assert(missing[k - 1] < missing[k as int]);
        }
    }
}

/// Parsing a serialized map gives back its values and consumes exactly its bytes.
pub proof fn lemma_map_round_trip(vals: Seq<u8>, rest: Seq<u8>)
    requires
        valid_values(vals),
    ensures
        map_bytes(vals).len() >= 1,
        map_bytes(vals)[0] != FORM_NONE,
        parse_map(map_bytes(vals)[0], map_bytes(vals).drop_first() + rest) == Ok::<
            (Seq<bool>, nat),
            BrpError,
        >((used_table(vals), (map_bytes(vals).len() - 1) as nat)),
{
    let lo = lo_of(vals);
    let hi = hi_of(vals);
    let mb = map_bytes(vals);
    let b = mb.drop_first() + rest;
    lemma_ascending_bounds(vals);
    lemma_map_bytes_len(vals);
    assert(vals.contains(lo));
    assert(vals.contains(hi));
    assert(b[0] == lo && b[1] == hi);
    if form_of(vals) == FORM_BITMAP {
        let span = span_of(lo, hi);
        let need = (span + 7) / 8;
        let s = padded(interior_bits(vals));
        lemma_padding_range(span);
        assert(s.len() == 8 * need);
        assert(s.len() % 8 == 0) by {
            lemma_fundamental_div_mod_converse(s.len() as int, 8, need as int, 0);
        }
        let body = pack_bits(s);
        assert(b.subrange(2, 2 + need as int) =~= body);
        lemma_bits_of_pack(s);
        let bits = byte_bits(body);
        assert(!(exists|k: int| span <= k < 8 * need && #[trigger] bits[k])) by {
            assert forall|k: int| span <= k < 8 * need implies !#[trigger] bits[k] by {
                assert(s[k] == zeros(pad_len(span))[k - span]);
            }
        }
        assert(bitmap_used(lo, hi, bits) =~= used_table(vals)) by {
            assert forall|v: int| 0 <= v < 256 implies bitmap_used(lo, hi, bits)[v] == used_table(
                vals,
            )[v] by {
                if lo < v < hi {
                    assert(s[v - lo - 1] == interior_bits(vals)[v - lo - 1]);
                    assert((lo + 1 + (v - lo - 1)) as u8 == v as u8);
                } else if v != lo && v != hi {
                    if vals.contains(v as u8) {
                        let k = choose|k: int| 0 <= k < vals.len() && vals[k] == v as u8;
                        assert(lo <= vals[k] <= hi);
                    }
                }
            }
        }
    } else {
        let missing = missing_below(vals, lo, hi as nat);
        lemma_missing_count(vals);
        lemma_missing_below(vals, lo, hi as nat);
        assert(gaps_of(vals) <= 255);
        assert(b[2] == gaps_of(vals));
        assert(b.subrange(3, 3 + b[2] as int) =~= missing);
        lemma_climbing_no_disorder(missing, lo, hi, 0);
        assert(list_used(lo, hi, missing) =~= used_table(vals)) by {
            assert forall|v: int| 0 <= v < 256 implies list_used(lo, hi, missing)[v] == used_table(
                vals,
            )[v] by {
                assert(missing.contains(v as u8) == (lo < v < hi && !vals.contains(v as u8)));
                if !(lo <= v <= hi) && vals.contains(v as u8) {
                    let k = choose|k: int| 0 <= k < vals.len() && vals[k] == v as u8;
                    assert(lo <= vals[k] <= hi);
                }
            }
        }
    }
}

/// One channel's entry: its map, or a single `FORM_NONE` byte.
pub open spec fn entry_bytes(entry: Option<Seq<u8>>) -> Seq<u8> {
    match entry {
        Some(v) => map_bytes(v),
        None => seq![FORM_NONE],
    }
}

/// The serialized entries of channels `k..`, front to back.
pub open spec fn entries_from(vals: Seq<Option<Seq<u8>>>, k: nat) -> Seq<u8>
    decreases vals.len() - k,
{
    if k >= vals.len() {
        Seq::empty()
    } else {
        entry_bytes(vals[k as int]) + entries_from(vals, k + 1)
    }
}

proof fn lemma_entries_split(vals: Seq<Option<Seq<u8>>>, k: nat)
    requires
        k <= vals.len(),
    ensures
        entries_bytes(vals, k) + entries_from(vals, k) == entries_from(vals, 0),
    decreases k,
{
    if k > 0 {
        lemma_entries_split(vals, (k - 1) as nat);
        let x = entry_bytes(vals[k - 1]);
        assert(entries_from(vals, (k - 1) as nat) == x + entries_from(vals, k));
        assert(entries_bytes(vals, k) == entries_bytes(vals, (k - 1) as nat) + x);
        assert(entries_bytes(vals, k) + entries_from(vals, k) =~= entries_bytes(
            vals,
            (k - 1) as nat,
        ) + (x + entries_from(vals, k)));
    } else {
        assert(entries_bytes(vals, 0) + entries_from(vals, 0) =~= entries_from(vals, 0));
    }
}

/// The used-flag tables of channels `k..`.
pub open spec fn tables_from(vals: Seq<Option<Seq<u8>>>, k: nat) -> Seq<Option<Seq<bool>>> {
    Seq::new(
        (vals.len() - k) as nat,
        |c: int|
            match vals[k + c] {
                Some(v) => Some(used_table(v)),
                None => None,
            },
    )
}

#[verifier::spinoff_prover]
#[verifier::rlimit(50)]
proof fn lemma_entries_round_trip(vals: Seq<Option<Seq<u8>>>, pre: Seq<u8>, rest: Seq<u8>, k: nat)
    requires
        k <= vals.len(),
        forall|c: int| 0 <= c < vals.len() ==> (#[trigger] vals[c] matches Some(v) ==> valid_values(v)),
    ensures
        parse_entries(pre + entries_from(vals, k) + rest, pre.len(), (vals.len() - k) as nat) == Ok::<
            (Seq<Option<Seq<bool>>>, nat),
            BrpError,
        >((tables_from(vals, k), pre.len() + entries_from(vals, k).len())),
    decreases vals.len() - k,
{
    let b = pre + entries_from(vals, k) + rest;
    if k < vals.len() {
        let x = entry_bytes(vals[k as int]);
        let pre2 = pre + x;
        assert(b =~= pre2 + entries_from(vals, k + 1) + rest);
        lemma_entries_round_trip(vals, pre2, rest, k + 1);
        match vals[k as int] {
            Some(v) => {
                lemma_map_round_trip(v, entries_from(vals, k + 1) + rest);
                assert(b[pre.len() as int] == map_bytes(v)[0]);
                assert(b.subrange(pre.len() + 1 as int, b.len() as int) =~= map_bytes(v).drop_first() + (
                entries_from(vals, k + 1) + rest));
            },
            None => {
                assert(b[pre.len() as int] == FORM_NONE);
            },
        }
        assert(tables_from(vals, k) =~= seq![
            match vals[k as int] {
                Some(v) => Some(used_table(v)),
                None => None,
            },
        ] + tables_from(vals, k + 1));
    } else {
        assert(tables_from(vals, k) =~= Seq::<Option<Seq<bool>>>::empty());
    }
}

/// Parsing a written section gives back every channel's map, and consumes exactly the section.
pub proof fn lemma_section_round_trip(vals: Seq<Option<Seq<u8>>>, rest: Seq<u8>)
    requires
        any_map(vals),
        forall|c: int| 0 <= c < vals.len() ==> (#[trigger] vals[c] matches Some(v) ==> valid_values(v)),
    ensures
        parse_section(section_bytes(vals) + rest, vals.len()) == Ok::<
            (Seq<Option<Seq<bool>>>, nat),
            BrpError,
        >((tables_from(vals, 0), section_bytes(vals).len())),
{
    lemma_entries_split(vals, vals.len());
    assert(entries_from(vals, vals.len()) =~= Seq::<u8>::empty());
    assert(section_bytes(vals) =~= entries_from(vals, 0));
    lemma_entries_round_trip(vals, Seq::empty(), rest, 0);
    assert(Seq::<u8>::empty() + entries_from(vals, 0) + rest =~= section_bytes(vals) + rest);
    let c = choose|c: int| 0 <= c < vals.len() && #[trigger] vals[c] is Some;
    assert(tables_from(vals, 0)[c] is Some);
}

} // verus!
