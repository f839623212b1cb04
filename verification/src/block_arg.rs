//! The `--block-size` argument: `16x16`, `8X32`, or a single number for a square.

use vstd::prelude::*;
use vstd::string::StrSliceExecFns;

verus! {

/// Which half of a block size an error is about.
#[derive(Debug, Clone, Copy, PartialEq, Eq, Structural)]
pub enum BlockAxis {
    Width,
    Height,
}

/// Why a block-size argument was refused.
///
/// `from..to` are the character positions of the offending field in the argument, before
/// whitespace was trimmed, so that a caller can quote it.
#[derive(Debug, Clone, Copy, PartialEq, Eq, Structural)]
pub enum BlockSizeError {
    NotANumber { axis: BlockAxis, from: usize, to: usize },
    Zero { axis: BlockAxis },
}

/// `char::is_whitespace`: the Unicode `White_Space` property.
pub open spec fn is_space(c: char) -> bool {
    let v = c as u32;
    (9 <= v <= 13) || v == 32 || v == 0x85 || v == 0xa0 || v == 0x1680 || (0x2000 <= v <= 0x200a)
        || v == 0x2028 || v == 0x2029 || v == 0x202f || v == 0x205f || v == 0x3000
}

/// The first position at or after `i` that holds `x` or `X`, or the length when there is none.
pub open spec fn find_x(s: Seq<char>, i: int) -> int
    decreases s.len() - i,
{
    if i >= s.len() {
        s.len() as int
    } else if s[i] == 'x' || s[i] == 'X' {
        i
    } else {
        find_x(s, i + 1)
    }
}

/// Where a field starts once its leading whitespace is dropped.
pub open spec fn skip_space(s: Seq<char>, lo: int, hi: int) -> int
    decreases hi - lo,
{
    if lo < hi && is_space(s[lo]) {
        skip_space(s, lo + 1, hi)
    } else {
        lo
    }
}

/// Where a field ends once its trailing whitespace is dropped.
pub open spec fn back_space(s: Seq<char>, lo: int, hi: int) -> int
    decreases hi - lo,
{
    if lo < hi && is_space(s[hi - 1]) {
        back_space(s, lo, hi - 1)
    } else {
        hi
    }
}

pub open spec fn is_digit(c: char) -> bool {
    '0' <= c <= '9'
}

pub open spec fn all_digits(s: Seq<char>, lo: int, hi: int) -> bool {
    forall|j: int| lo <= j < hi ==> is_digit(#[trigger] s[j])
}

/// The decimal number that the digits `s[lo..hi]` spell.
pub open spec fn digits_value(s: Seq<char>, lo: int, hi: int) -> nat
    decreases hi - lo,
{
    if hi <= lo {
        0
    } else {
        digits_value(s, lo, hi - 1) * 10 + ((s[hi - 1] as u32) - ('0' as u32)) as nat
    }
}

/// `u32::from_str` on `s[lo..hi]`: an optional `+`, then at least one ASCII digit, and a value
/// that fits.
pub open spec fn parse_u32(s: Seq<char>, lo: int, hi: int) -> Option<u32> {
    let a = if lo < hi && s[lo] == '+' { lo + 1 } else { lo };
    if a < hi && all_digits(s, a, hi) && digits_value(s, a, hi) <= u32::MAX {
        Some(digits_value(s, a, hi) as u32)
    } else {
        None
    }
}

/// One field of the argument, trimmed and read as a positive number.
pub open spec fn field_outcome(s: Seq<char>, lo: int, hi: int, axis: BlockAxis) -> Result<
    u32,
    BlockSizeError,
> {
    let a = skip_space(s, lo, hi);
    let b = back_space(s, a, hi);
    match parse_u32(s, a, b) {
        None => Err(BlockSizeError::NotANumber { axis, from: lo as usize, to: hi as usize }),
        Some(n) => if n == 0 {
            Err(BlockSizeError::Zero { axis })
        } else {
            Ok(n)
        },
    }
}

/// What `--block-size` makes of its argument: split at the first `x` or `X` into width and
/// height, or read one number for both; the width is judged first.
pub open spec fn block_size_outcome(s: Seq<char>) -> Result<(u32, u32), BlockSizeError> {
    let i = find_x(s, 0);
    let (wlo, whi, hlo, hhi) = if i < s.len() {
        (0, i, i + 1, s.len() as int)
    } else {
        (0, s.len() as int, 0, s.len() as int)
    };
    match field_outcome(s, wlo, whi, BlockAxis::Width) {
        Err(e) => Err(e),
        Ok(w) => match field_outcome(s, hlo, hhi, BlockAxis::Height) {
            Err(e) => Err(e),
            Ok(h) => Ok((w, h)),
        },
    }
}

/// A longer run of digits never spells a smaller number.
proof fn lemma_digits_grow(s: Seq<char>, lo: int, mid: int, hi: int)
    requires
        lo <= mid <= hi,
        all_digits(s, lo, hi),
    ensures
        digits_value(s, lo, mid) <= digits_value(s, lo, hi),
    decreases hi - mid,
{
    if mid < hi {
        lemma_digits_grow(s, lo, mid, hi - 1);
        assert(is_digit(s[hi - 1]));
    }
}

fn is_space_char(c: char) -> (b: bool)
    ensures
        b == is_space(c),
{
    let v = c as u32;
    (9 <= v && v <= 13) || v == 32 || v == 0x85 || v == 0xa0 || v == 0x1680 || (0x2000 <= v && v
        <= 0x200a) || v == 0x2028 || v == 0x2029 || v == 0x202f || v == 0x205f || v == 0x3000
}

/// Reads one field `cs[lo..hi]`.
fn parse_field(cs: &Vec<char>, lo: usize, hi: usize, axis: BlockAxis) -> (r: Result<
    u32,
    BlockSizeError,
>)
    requires
        lo <= hi <= cs.len(),
    ensures
        r == field_outcome(cs@, lo as int, hi as int, axis),
{
    let s = Ghost(cs@);
    let mut a = lo;
    while a < hi && is_space_char(cs[a])
        invariant
            lo <= a <= hi <= cs.len(),
            s@ == cs@,
            skip_space(s@, a as int, hi as int) == skip_space(s@, lo as int, hi as int),
        decreases hi - a,
    {
        a = a + 1;
    }
    let mut b = hi;
    while a < b && is_space_char(cs[b - 1])
        invariant
            lo <= a <= b <= hi <= cs.len(),
            s@ == cs@,
            a as int == skip_space(s@, lo as int, hi as int),
            back_space(s@, a as int, b as int) == back_space(s@, a as int, hi as int),
        decreases b,
    {
        b = b - 1;
    }
    let not_a_number = BlockSizeError::NotANumber { axis, from: lo, to: hi };
    let mut d = a;
    if d < b && cs[d] == '+' {
        d = d + 1;
    }
    if d >= b {
        return Err(not_a_number);
    }
    let mut value: u64 = 0;
    let mut j = d;
    while j < b
        invariant
            d <= j <= b <= cs.len(),
            d < b,
            lo <= a <= b <= hi,
            not_a_number == (BlockSizeError::NotANumber { axis, from: lo, to: hi }),
            s@ == cs@,
            a as int == skip_space(s@, lo as int, hi as int),
            b as int == back_space(s@, a as int, hi as int),
            d as int == (if a < b && s@[a as int] == '+' { a + 1 } else { a as int }),
            all_digits(s@, d as int, j as int),
            value == digits_value(s@, d as int, j as int),
            value <= u32::MAX,
        decreases b - j,
    {
        let c = cs[j];
        if !('0' <= c && c <= '9') {
            assert(!is_digit(s@[j as int]));
            return Err(not_a_number);
        }
        let digit = (c as u32) - ('0' as u32);
        let next = value * 10 + digit as u64;
        if next > 0xffff_ffff {
            proof {
                assert(digits_value(s@, d as int, j as int + 1) == next);
                if all_digits(s@, d as int, b as int) {
                    lemma_digits_grow(s@, d as int, j as int + 1, b as int);
                }
            }
            return Err(not_a_number);
        }
        value = next;
        j = j + 1;
    }
    let n = value as u32;
    if n == 0 {
        Err(BlockSizeError::Zero { axis })
    } else {
        Ok(n)
    }
}

/// Reads a block size: `WxH` (or `WXH`), or one number for a square. Each side is trimmed of
/// whitespace and must be a positive `u32`.
pub fn parse_block_size(s: &str) -> (r: Result<(u32, u32), BlockSizeError>)
    ensures
        r == block_size_outcome(s@),
{
    let n = s.unicode_len();
    let mut cs: Vec<char> = Vec::new();
    let mut i: usize = 0;
    while i < n
        invariant
            n == s@.len(),
            i <= n,
            cs@ == s@.subrange(0, i as int),
        decreases n - i,
    {
        cs.push(s.get_char(i));
        i = i + 1;
    }
    assert(cs@ =~= s@);
    let mut x: usize = 0;
    while x < n && !(cs[x] == 'x' || cs[x] == 'X')
        invariant
            n == cs.len(),
            x <= n,
            find_x(cs@, x as int) == find_x(cs@, 0),
        decreases n - x,
    {
        x = x + 1;
    }
    let (wlo, whi, hlo, hhi) = if x < n {
        (0, x, x + 1, n)
    } else {
        (0, n, 0, n)
    };
    match parse_field(&cs, wlo, whi, BlockAxis::Width) {
        Err(e) => Err(e),
        Ok(w) => match parse_field(&cs, hlo, hhi, BlockAxis::Height) {
            Err(e) => Err(e),
            Ok(h) => Ok((w, h)),
        },
    }
}

} // verus!
