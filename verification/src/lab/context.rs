//! Context modelling for the Rice parameter with configurable quantiser thresholds: the knobs the
//! shipped context coder fixes, left open here for measurement.

use vstd::prelude::*;

verus! {

/// Bucket boundaries for the gradient quantiser.
#[derive(Debug, Clone, Copy, PartialEq, Eq, Structural)]
pub struct Thresholds {
    pub t1: u8,
    pub t2: u8,
    pub t3: u8,
}

impl Default for Thresholds {
    /// JPEG-LS's defaults for 8-bit samples: 3, 7, 21.
    fn default() -> (t: Self)
        ensures
            t == (Thresholds { t1: 3, t2: 7, t3: 21 }),
    {
        Thresholds { t1: 3, t2: 7, t3: 21 }
    }
}

/// The level of a gradient's magnitude `m`: 0 for none, then one step per threshold passed.
pub open spec fn magnitude_level(t: Thresholds, m: int) -> int {
    if m == 0 {
        0
    } else if m <= t.t1 {
        1
    } else if m <= t.t2 {
        2
    } else if m <= t.t3 {
        3
    } else {
        4
    }
}

/// A gradient's level, `-4..=4`, carrying the gradient's sign.
pub open spec fn spec_quantise(t: Thresholds, d: int) -> int {
    if d < 0 {
        -magnitude_level(t, -d)
    } else {
        magnitude_level(t, d)
    }
}

/// The quantiser is odd: a gradient and its negation land on opposite levels.
pub proof fn lemma_quantise_is_odd(t: Thresholds, d: int)
    ensures
        spec_quantise(t, -d) == -spec_quantise(t, d),
{
}

impl Thresholds {
    /// A gradient to one of nine levels, `-4..=4`, symmetric about zero.
    pub fn quantise(&self, d: i32) -> (q: i32)
        ensures
            q == spec_quantise(*self, d as int),
            -4 <= q <= 4,
    {
        let m: u32 = if d < 0 {
            (-(d + 1)) as u32 + 1
        } else {
            d as u32
        };
        let level: i32 = if m == 0 {
            0
        } else if m <= self.t1 as u32 {
            1
        } else if m <= self.t2 as u32 {
            2
        } else if m <= self.t3 as u32 {
            3
        } else {
            4
        };
        if d < 0 {
            -level
        } else {
            level
        }
    }
}

/// What the context gradients are measured over.
#[derive(Debug, Clone, Copy, PartialEq, Eq, Structural)]
pub enum ContextSource {
    /// Differences between reconstructed neighbours — LOCO-I as specified.
    Sample,
    /// The neighbouring prediction errors themselves.
    Residual,
}

impl ContextSource {
    pub fn name(self) -> (s: &'static str) {
        match self {
            ContextSource::Sample => "loco",
            ContextSource::Residual => "resid",
        }
    }

    /// The byte a prototype stream names the source with.
    pub fn code(self) -> (c: u8)
        ensures
            c == (if self == ContextSource::Sample { 0u8 } else { 1u8 }),
    {
        match self {
            ContextSource::Sample => 0,
            ContextSource::Residual => 1,
        }
    }

    /// Reverses [`ContextSource::code`]; `None` for any other byte.
    pub fn from_code(c: u8) -> (r: Option<Self>)
        ensures
            c == 0 ==> r == Some(ContextSource::Sample),
            c == 1 ==> r == Some(ContextSource::Residual),
            c > 1 ==> r.is_none(),
    {
        match c {
            0 => Some(ContextSource::Sample),
            1 => Some(ContextSource::Residual),
            _ => None,
        }
    }
}

} // verus!
