//! Predictor variants beside the format's per-row PNG choice: LOCO-I's median edge detector
//! (MED), CALIC's gradient-adjusted predictor (GAP), and choices made per block instead of per
//! row. None of this is part of the format.

use crate::predict::{predict, spec_predict};
use vstd::prelude::*;

verus! {

/// Bits per kind code in a prototype stream. Three still covers the seven kinds.
pub const KIND_BITS: u32 = 3;

/// PNG's five, then MED, then GAP.
pub const KINDS: u8 = 7;

pub const MED: u8 = 5;

pub const GAP: u8 = 6;

/// Which kinds a choice may pick from.
#[derive(Debug, Clone, Copy, PartialEq, Eq, Structural)]
pub enum Menu {
    /// PNG's five. What the format offers today.
    Png5,
    /// The five plus MED.
    Png6,
    /// The five plus MED and GAP.
    Png7,
}

/// How often a choice may change.
#[derive(Debug, Clone, Copy, PartialEq, Eq, Structural)]
pub enum Scope {
    /// One kind per row, shared by every coded channel. What the format does.
    Row,
    /// One kind per square of this side, shared by every coded channel.
    Block(u32),
}

/// One way of turning samples into residuals.
#[derive(Debug, Clone, Copy, PartialEq, Eq, Structural)]
pub enum Variant {
    /// The same predictor everywhere. No side information in the stream at all.
    Fixed(u8),
    /// A predictor chosen per unit, by sum of absolute residuals over the coded channels.
    Choice { scope: Scope, menu: Menu },
}

/// Why three predictor bytes name no variant.
#[derive(Debug, Clone, Copy, PartialEq, Eq, Structural)]
pub enum PredictorCodeError {
    UnknownMenu(u8),
    KindOutOfRange(u8),
    MissingBlockSide,
    UnknownCode(u8),
}

/// The kinds a menu offers, in the order a choice tries them.
pub open spec fn menu_kinds(menu: Menu) -> Seq<u8> {
    match menu {
        Menu::Png5 => seq![0u8, 1, 2, 3, 4],
        Menu::Png6 => seq![0u8, 1, 2, 3, 4, MED],
        Menu::Png7 => seq![0u8, 1, 2, 3, 4, MED, GAP],
    }
}

impl Menu {
    /// The kinds this menu offers, in the order a choice tries them.
    pub fn kinds(self) -> (k: Vec<u8>)
        ensures
            k@ == menu_kinds(self),
    {
        let k = match self {
            Menu::Png5 => vec![0u8, 1, 2, 3, 4],
            Menu::Png6 => vec![0u8, 1, 2, 3, 4, MED],
            Menu::Png7 => vec![0u8, 1, 2, 3, 4, MED, GAP],
        };
        assert(k@ =~= menu_kinds(self));
        k
    }

    pub fn name(self) -> (s: &'static str) {
        match self {
            Menu::Png5 => "png5",
            Menu::Png6 => "png6",
            Menu::Png7 => "png7",
        }
    }
}

pub open spec fn ceil_div(a: nat, b: nat) -> nat {
    if b == 0 {
        0
    } else {
        ((a + b - 1) as nat) / b
    }
}

/// How many kind codes a stream of a `width` by `height` image carries under `v`.
pub open spec fn spec_units(v: Variant, width: nat, height: nat) -> nat {
    match v {
        Variant::Fixed(_) => 0,
        Variant::Choice { scope, .. } => match scope {
            Scope::Row => height,
            Scope::Block(b) => ceil_div(width, b as nat) * ceil_div(height, b as nat),
        },
    }
}

impl Variant {
    /// What the format does today: PNG's five, chosen per row.
    pub fn shipped() -> (v: Self)
        ensures
            v == (Variant::Choice { scope: Scope::Row, menu: Menu::Png5 }),
    {
        Variant::Choice { scope: Scope::Row, menu: Menu::Png5 }
    }

    /// How many kind codes the stream carries. Zero for a fixed predictor.
    pub fn units(self, width: u32, height: u32) -> (n: usize)
        requires
            spec_units(self, width as nat, height as nat) <= usize::MAX,
            self matches Variant::Choice { scope: Scope::Block(b), .. } ==> b > 0,
        ensures
            n == spec_units(self, width as nat, height as nat),
    {
        match self {
            Variant::Fixed(_) => 0,
            Variant::Choice { scope, .. } => match scope {
                Scope::Row => height as usize,
                Scope::Block(b) => {
                    let across = (width as u64 + b as u64 - 1) / b as u64;
                    let down = (height as u64 + b as u64 - 1) / b as u64;
                    proof {
                        assert(across * down <= usize::MAX);
                    }
                    (across * down) as usize
                },
            },
        }
    }
}

/// The three bytes a prototype stream names its predictor with.
pub open spec fn code_bytes(variant: Option<Variant>) -> Seq<u8> {
    match variant {
        None => seq![0u8, 0, 0],
        Some(Variant::Fixed(kind)) => seq![1u8, kind, 0],
        Some(Variant::Choice { scope, menu }) => {
            let m: u8 = match menu {
                Menu::Png5 => 0,
                Menu::Png6 => 1,
                Menu::Png7 => 2,
            };
            match scope {
                Scope::Row => seq![2u8, m, 0],
                Scope::Block(b) => seq![3u8, m, if b <= 255 { b as u8 } else { 0u8 }],
            }
        },
    }
}

/// How a prototype stream names its predictor: three bytes, so a decoder can rebuild the variant.
pub fn code(variant: Option<Variant>) -> (c: [u8; 3])
    ensures
        c@ == code_bytes(variant),
{
    let c: [u8; 3] = match variant {
        None => [0, 0, 0],
        Some(Variant::Fixed(kind)) => [1, kind, 0],
        Some(Variant::Choice { scope, menu }) => {
            let m: u8 = match menu {
                Menu::Png5 => 0,
                Menu::Png6 => 1,
                Menu::Png7 => 2,
            };
            match scope {
                Scope::Row => [2, m, 0],
                Scope::Block(b) => [3, m, if b <= 255 { b as u8 } else { 0 }],
            }
        },
    };
    c
}

fn menu_from(m: u8) -> (r: Result<Menu, PredictorCodeError>)
    ensures
        m == 0 ==> r == Ok::<Menu, PredictorCodeError>(Menu::Png5),
        m == 1 ==> r == Ok::<Menu, PredictorCodeError>(Menu::Png6),
        m == 2 ==> r == Ok::<Menu, PredictorCodeError>(Menu::Png7),
        m > 2 ==> r == Err::<Menu, PredictorCodeError>(PredictorCodeError::UnknownMenu(m)),
{
    match m {
        0 => Ok(Menu::Png5),
        1 => Ok(Menu::Png6),
        2 => Ok(Menu::Png7),
        _ => Err(PredictorCodeError::UnknownMenu(m)),
    }
}

/// What three predictor bytes name, or why they name nothing.
pub open spec fn code_outcome(c: Seq<u8>) -> Result<Option<Variant>, PredictorCodeError> {
    let menu = if c[1] == 0 {
        Some(Menu::Png5)
    } else if c[1] == 1 {
        Some(Menu::Png6)
    } else if c[1] == 2 {
        Some(Menu::Png7)
    } else {
        None
    };
    if c[0] == 0 {
        Ok(None)
    } else if c[0] == 1 {
        if c[1] >= KINDS {
            Err(PredictorCodeError::KindOutOfRange(c[1]))
        } else {
            Ok(Some(Variant::Fixed(c[1])))
        }
    } else if c[0] == 2 {
        match menu {
            None => Err(PredictorCodeError::UnknownMenu(c[1])),
            Some(m) => Ok(Some(Variant::Choice { scope: Scope::Row, menu: m })),
        }
    } else if c[0] == 3 {
        if c[2] == 0 {
            Err(PredictorCodeError::MissingBlockSide)
        } else {
            match menu {
                None => Err(PredictorCodeError::UnknownMenu(c[1])),
                Some(m) => Ok(Some(Variant::Choice { scope: Scope::Block(c[2] as u32), menu: m })),
            }
        }
    } else {
        Err(PredictorCodeError::UnknownCode(c[0]))
    }
}

/// Reverses [`code`], rejecting anything a valid stream cannot contain.
pub fn from_code(c: [u8; 3]) -> (r: Result<Option<Variant>, PredictorCodeError>)
    ensures
        r == code_outcome(c@),
{
    match c[0] {
        0 => Ok(None),
        1 => {
            if c[1] >= KINDS {
                return Err(PredictorCodeError::KindOutOfRange(c[1]));
            }
            Ok(Some(Variant::Fixed(c[1])))
        },
        2 => match menu_from(c[1]) {
            Ok(menu) => Ok(Some(Variant::Choice { scope: Scope::Row, menu })),
            Err(e) => Err(e),
        },
        3 => {
            if c[2] == 0 {
                return Err(PredictorCodeError::MissingBlockSide);
            }
            match menu_from(c[1]) {
                Ok(menu) => Ok(Some(Variant::Choice { scope: Scope::Block(c[2] as u32), menu })),
                Err(e) => Err(e),
            }
        },
        other => Err(PredictorCodeError::UnknownCode(other)),
    }
}

/// A variant a stream can carry: a fixed kind below [`KINDS`], or a block side that fits a byte.
pub open spec fn is_codable(variant: Option<Variant>) -> bool {
    match variant {
        None => true,
        Some(Variant::Fixed(kind)) => kind < KINDS,
        Some(Variant::Choice { scope, .. }) => match scope {
            Scope::Row => true,
            Scope::Block(b) => 1 <= b <= 255,
        },
    }
}

/// Reading back what [`code`] wrote gives the variant again, for every variant a stream can
/// carry.
pub proof fn lemma_code_round_trip(variant: Option<Variant>)
    requires
        is_codable(variant),
    ensures
        code_outcome(code_bytes(variant)) == Ok::<Option<Variant>, PredictorCodeError>(variant),
{
}

pub fn kind_name(kind: u8) -> (s: &'static str) {
    match kind {
        0 => "none",
        1 => "sub",
        2 => "up",
        3 => "avg",
        4 => "paeth",
        MED => "med",
        GAP => "gap",
        _ => "?",
    }
}

// ---------------------------------------------------------------------------------------------
// The predictors
// ---------------------------------------------------------------------------------------------

pub open spec fn clamp_byte(v: int) -> u8 {
    if v < 0 {
        0
    } else if v > 255 {
        255
    } else {
        v as u8
    }
}

/// The middle one of three numbers.
pub open spec fn median3(x: int, y: int, z: int) -> int {
    let lo = if x <= y && x <= z {
        x
    } else if y <= z {
        y
    } else {
        z
    };
    let hi = if x >= y && x >= z {
        x
    } else if y >= z {
        y
    } else {
        z
    };
    x + y + z - lo - hi
}

/// LOCO-I's median edge detector. `a` is left, `b` above, `c` upper-left: the median of `a`, `b`
/// and the plane through all three, clamped to a byte.
pub fn med(a: u8, b: u8, c: u8) -> (r: u8)
    ensures
        r == clamp_byte(median3(a as int, b as int, a + b - c)),
{
    let (lo, hi) = if a < b {
        (a, b)
    } else {
        (b, a)
    };
    if c >= hi {
        lo
    } else if c <= lo {
        hi
    } else {
        let p = a as i16 + b as i16 - c as i16;
        if p < 0 {
            0
        } else if p > 255 {
            255
        } else {
            p as u8
        }
    }
}

/// Integer division rounding toward zero, as Rust's `/` on signed integers does.
pub open spec fn tdiv(a: int, b: int) -> int {
    if a >= 0 {
        a / b
    } else {
        -((-a) / b)
    }
}

pub open spec fn iabs(v: int) -> int {
    if v < 0 {
        -v
    } else {
        v
    }
}

/// CALIC's gradient-adjusted predictor over the neighbours `w`, `n`, `nw`, `ne`, `ww`, `nn`,
/// `nne`, with the published thresholds 80/32/8.
pub open spec fn spec_gap(w: u8, n: u8, nw: u8, ne: u8, ww: u8, nn: u8, nne: u8) -> u8 {
    let dh = iabs(w - ww) + iabs(n - nw) + iabs(n - ne);
    let dv = iabs(w - nw) + iabs(n - nn) + iabs(ne - nne);
    let d = dv - dh;
    let p = if d > 80 {
        w as int
    } else if d < -80 {
        n as int
    } else {
        let p0 = tdiv(w + n, 2) + tdiv(ne - nw, 4);
        if d > 32 {
            tdiv(p0 + w, 2)
        } else if d > 8 {
            tdiv(3 * p0 + w, 4)
        } else if d < -32 {
            tdiv(p0 + n, 2)
        } else if d < -8 {
            tdiv(3 * p0 + n, 4)
        } else {
            p0
        }
    };
    clamp_byte(p)
}

fn tdiv_i32(a: i32, b: i32) -> (q: i32)
    requires
        b > 0,
        a > i32::MIN,
    ensures
        q == tdiv(a as int, b as int),
{
    if a >= 0 {
        a / b
    } else {
        -((-a) / b)
    }
}

fn abs_i32(v: i32) -> (r: i32)
    requires
        v > i32::MIN,
    ensures
        r == iabs(v as int),
{
    if v < 0 {
        -v
    } else {
        v
    }
}

/// CALIC's gradient-adjusted predictor.
pub fn gap(w: u8, n: u8, nw: u8, ne: u8, ww: u8, nn: u8, nne: u8) -> (r: u8)
    ensures
        r == spec_gap(w, n, nw, ne, ww, nn, nne),
{
    let (w_, n_, nw_, ne_) = (w as i32, n as i32, nw as i32, ne as i32);
    let (ww_, nn_, nne_) = (ww as i32, nn as i32, nne as i32);
    let dh = abs_i32(w_ - ww_) + abs_i32(n_ - nw_) + abs_i32(n_ - ne_);
    let dv = abs_i32(w_ - nw_) + abs_i32(n_ - nn_) + abs_i32(ne_ - nne_);
    let d = dv - dh;
    let p = if d > 80 {
        w_
    } else if d < -80 {
        n_
    } else {
        let p0 = tdiv_i32(w_ + n_, 2) + tdiv_i32(ne_ - nw_, 4);
        if d > 32 {
            tdiv_i32(p0 + w_, 2)
        } else if d > 8 {
            tdiv_i32(3 * p0 + w_, 4)
        } else if d < -32 {
            tdiv_i32(p0 + n_, 2)
        } else if d < -8 {
            tdiv_i32(3 * p0 + n_, 4)
        } else {
            p0
        }
    };
    if p < 0 {
        0
    } else if p > 255 {
        255
    } else {
        p as u8
    }
}

/// The prediction of kind `kind` from the PNG neighbours `left`, `above`, `upper_left` and the
/// seven replicated neighbours `r` (left, above, upper-left, above-right, left-left, above-above,
/// above-above-right).
pub open spec fn spec_predict_kind(kind: u8, png: (u8, u8, u8), r: Seq<u8>) -> u8 {
    if kind == MED {
        clamp_byte(median3(r[0] as int, r[1] as int, r[0] + r[1] - r[2]))
    } else if kind == GAP {
        spec_gap(r[0], r[1], r[2], r[3], r[4], r[5], r[6])
    } else if 1 <= kind <= 4 {
        spec_predict(kind, png.0, png.1, png.2)
    } else {
        0
    }
}

/// One prediction, given both neighbour sets.
pub fn predict_kind(kind: u8, png: (u8, u8, u8), r: &[u8; 7]) -> (p: u8)
    ensures
        p == spec_predict_kind(kind, png, r@),
{
    if kind == MED {
        med(r[0], r[1], r[2])
    } else if kind == GAP {
        gap(r[0], r[1], r[2], r[3], r[4], r[5], r[6])
    } else if 1 <= kind && kind <= 4 {
        predict(kind, png.0, png.1, png.2)
    } else {
        0
    }
}

} // verus!
