//! Stage 1: whole-image channel reduction.
//!
//! Before any block is considered, each channel is classified as constant, an alias of an earlier
//! channel, or coded. Only coded channels reach the block packer.

use crate::error::BrpError;
use crate::image::MAX_CHANNELS;
use vstd::arithmetic::div_mod::*;
use vstd::prelude::*;

verus! {

pub const MODE_CODED: u8 = 0;

pub const MODE_CONSTANT: u8 = 1;

pub const MODE_ALIAS: u8 = 2;

pub const MODE_RESERVED: u8 = 3;

/// What the bitstream does with one channel.
#[derive(Debug, Clone, Copy, PartialEq, Eq, Structural)]
pub enum ChannelMode {
    /// Packed per block, in stage 2.
    Coded,
    /// Every sample is this value; the channel is absent from the bitstream.
    Constant(u8),
    /// Sample-for-sample identical to the given earlier channel, which is always `Coded`.
    Alias(u8),
}

/// The ascending channels that are `Coded`, among the first `n`.
pub open spec fn coded_list(modes: Seq<ChannelMode>, n: nat) -> Seq<usize>
    decreases n,
{
    if n == 0 {
        Seq::empty()
    } else if modes[n - 1] == ChannelMode::Coded {
        coded_list(modes, (n - 1) as nat).push((n - 1) as usize)
    } else {
        coded_list(modes, (n - 1) as nat)
    }
}

/// Strictly ascending channel indices, each below `bound`.
pub open spec fn ascending_below(s: Seq<usize>, bound: nat) -> bool {
    &&& forall|i: int, j: int| 0 <= i < j < s.len() ==> s[i] < s[j]
    &&& forall|i: int| 0 <= i < s.len() ==> s[i] < bound
}

pub proof fn lemma_coded_list(modes: Seq<ChannelMode>, n: nat)
    requires
        n <= modes.len(),
        n <= 4,
    ensures
        ascending_below(coded_list(modes, n), n),
        coded_list(modes, n).len() <= n,
        forall|c: int|
            0 <= c < n ==> (modes[c] == ChannelMode::Coded <==> coded_list(modes, n).contains(
                c as usize,
            )),
    decreases n,
{
    if n > 0 {
        let m = (n - 1) as nat;
        lemma_coded_list(modes, m);
        let prev = coded_list(modes, m);
        if modes[m as int] == ChannelMode::Coded {
            let cur = prev.push(m as usize);
            assert(coded_list(modes, n) == cur);
            assert forall|i: int, j: int| 0 <= i < j < cur.len() implies cur[i] < cur[j] by {
                assert(cur[i] == prev[i]);
                if j < cur.len() - 1 {
                    assert(cur[j] == prev[j]);
                }
            }
            assert forall|c: int| 0 <= c < n implies (modes[c] == ChannelMode::Coded
                <==> cur.contains(c as usize)) by {
                if c < m {
                    if cur.contains(c as usize) {
                        let k = choose|k: int| 0 <= k < cur.len() && cur[k] == c as usize;
                        if k < prev.len() {
                            assert(prev[k] == c as usize);
                        }
                    }
                    if prev.contains(c as usize) {
                        let k = choose|k: int| 0 <= k < prev.len() && prev[k] == c as usize;
                        assert(cur[k] == c as usize);
                    }
                } else {
                    assert(cur[cur.len() - 1] == c as usize);
                }
            }
        } else {
            assert(coded_list(modes, n) == prev);
            assert forall|c: int| 0 <= c < n implies (modes[c] == ChannelMode::Coded
                <==> prev.contains(c as usize)) by {
                if c == m && prev.contains(c as usize) {
                    let k = choose|k: int| 0 <= k < prev.len() && prev[k] == c as usize;
                    assert(prev[k] < m);
                }
            }
        }
    }
}

/// The channel an alias copies; zero for any other mode.
pub open spec fn target_of(m: ChannelMode) -> u8 {
    match m {
        ChannelMode::Alias(t) => t,
        _ => 0,
    }
}

/// The classification of every channel in an image.
#[derive(Debug, Clone, PartialEq, Eq)]
pub struct ChannelPlan {
    channels: u8,
    modes: [ChannelMode; MAX_CHANNELS],
}

/// Whether a plan could stand in a file: a defined channel count, nothing past it, and every
/// alias pointing at an earlier coded channel.
pub open spec fn modes_wf(channels: u8, modes: Seq<ChannelMode>) -> bool {
    &&& 1 <= channels <= 4
    &&& modes.len() == 4
    &&& forall|c: int| channels <= c < 4 ==> modes[c] == ChannelMode::Coded
    &&& forall|c: int|
        0 <= c < channels && (#[trigger] modes[c]) is Alias ==> target_of(modes[c]) < c
            && modes[target_of(modes[c]) as int] == ChannelMode::Coded
}

impl ChannelPlan {
    pub closed spec fn spec_channels(&self) -> u8 {
        self.channels
    }

    /// One mode per channel slot, four of them; those past the channel count are `Coded`.
    pub closed spec fn spec_modes(&self) -> Seq<ChannelMode> {
        self.modes@
    }

    pub open spec fn spec_coded(&self) -> Seq<usize> {
        coded_list(self.spec_modes(), self.spec_channels() as nat)
    }

    pub open spec fn wf(&self) -> bool {
        modes_wf(self.spec_channels(), self.spec_modes())
    }

    pub proof fn lemma_modes_len(&self)
        ensures
            self.spec_modes().len() == 4,
    {
    }

    /// A plan that codes every channel: the result when both optimizations are disabled.
    pub fn all_coded(channels: u8) -> (p: Self)
        ensures
            p.spec_channels() == channels,
            p.spec_modes() == seq![ChannelMode::Coded; 4],
    {
        let p = ChannelPlan { channels, modes: [ChannelMode::Coded;MAX_CHANNELS] };
        proof {
            assert(p.modes@ =~= seq![ChannelMode::Coded; 4]);
        }
        p
    }

    pub fn channels(&self) -> (c: u8)
        ensures
            c == self.spec_channels(),
    {
        self.channels
    }

    pub fn mode(&self, channel: usize) -> (m: ChannelMode)
        requires
            channel < MAX_CHANNELS,
        ensures
            m == self.spec_modes()[channel as int],
    {
        self.modes[channel]
    }

    /// Indices of the channels that appear in the block stream, ascending.
    ///
    /// Not necessarily a prefix: an RGB image whose green aliases red codes channels 0 and 2.
    pub fn coded_indices(&self) -> (r: CodedIndices)
        requires
            self.spec_channels() <= 4,
        ensures
            r.wf(),
            r.spec_slots() == self.spec_coded(),
    {
        let mut indices = [0u8;MAX_CHANNELS];
        let mut len: usize = 0;
        let n = self.channels as usize;
        let mut c: usize = 0;
        proof {
            lemma_coded_list(self.modes@, 0);
        }
        while c < n
            invariant
                n == self.channels,
                n <= 4,
                c <= n,
                len <= c,
                len == coded_list(self.modes@, c as nat).len(),
                forall|i: int| 0 <= i < len ==> indices@[i] as usize == coded_list(
                    self.modes@,
                    c as nat,
                )[i],
            decreases n - c,
        {
            proof {
                lemma_coded_list(self.modes@, c as nat);
            }
            match self.modes[c] {
                ChannelMode::Coded => {
                    indices[len] = c as u8;
                    len = len + 1;
                },
                _ => {},
            }
            c = c + 1;
        }
        let r = CodedIndices { indices, len };
        proof {
            lemma_coded_list(self.modes@, n as nat);
            assert(r.spec_slots() =~= self.spec_coded());
        }
        r
    }

    /// How many channels reach the block packer. May be zero, for an image of constant channels.
    pub fn coded_count(&self) -> (n: usize)
        requires
            self.spec_channels() <= 4,
        ensures
            n == self.spec_coded().len(),
    {
        self.coded_indices().len()
    }

    /// Serialized length of the channel section, in bytes.
    pub fn byte_len(&self) -> (n: usize)
        requires
            self.spec_channels() <= 4,
        ensures
            n == plan_bytes(self.spec_channels(), self.spec_modes()).len(),
    {
        let n = self.channels as usize;
        let mut aliases = false;
        let mut constants: usize = 0;
        let mut c: usize = 0;
        while c < n
            invariant
                n == self.channels,
                n <= 4,
                c <= n,
                aliases == (alias_count(self.modes@, c as nat) > 0),
                constants == constant_count(self.modes@, c as nat),
                constants <= c,
            decreases n - c,
        {
            match self.modes[c] {
                ChannelMode::Alias(_) => {
                    aliases = true;
                },
                ChannelMode::Constant(_) => {
                    constants = constants + 1;
                },
                _ => {},
            }
            c = c + 1;
        }
        proof {
            lemma_plan_bytes_len(self.channels, self.modes@);
        }
        1 + (if aliases {
            1
        } else {
            0
        }) + constants
    }

    pub fn write_to(&self, out: &mut Vec<u8>)
        requires
            self.wf(),
        ensures
            final(out)@ == old(out)@ + plan_bytes(self.spec_channels(), self.spec_modes()),
    {
        let n = self.channels as usize;
        let ghost modes = self.modes@;
        let mut modes_byte: u8 = 0;
        let mut c: usize = 0;
        while c < n
            invariant
                n == self.channels,
                n <= 4,
                c <= n,
                modes == self.modes@,
                modes_byte == modes_byte_of(modes, c as nat),
            decreases n - c,
        {
            let code: u8 = match self.modes[c] {
                ChannelMode::Coded => MODE_CODED,
                ChannelMode::Constant(_) => MODE_CONSTANT,
                ChannelMode::Alias(_) => MODE_ALIAS,
            };
            proof {
                lemma_modes_byte_bound(modes, c as nat);
                lemma_or_shift(modes_byte, code, c as nat);
            }
            modes_byte = modes_byte | (code << ((2 * c) as u8));
            c = c + 1;
        }
        out.push(modes_byte);
        let mut alias_byte: u8 = 0;
        let mut slot: u8 = 0;
        let mut c: usize = 0;
        while c < n
            invariant
                n == self.channels,
                n <= 4,
                c <= n,
                modes == self.modes@,
                slot as nat == alias_count(modes, c as nat),
                alias_byte == alias_byte_of(modes, c as nat),
                modes_wf(self.channels, modes),
            decreases n - c,
        {
            proof {
                lemma_counts_bounded(modes, c as nat);
                lemma_alias_byte_bound(modes, c as nat);
            }
            match self.modes[c] {
                ChannelMode::Alias(target) => {
                    proof {
                        assert(target_of(modes[c as int]) == target);
                        lemma_or_shift(alias_byte, target, slot as nat);
                    }
                    alias_byte = alias_byte | (target << (2 * slot));
                    slot = slot + 1;
                },
                _ => {},
            }
            c = c + 1;
        }
        if slot > 0 {
            out.push(alias_byte);
        }
        let ghost before_constants = out@;
        let mut c: usize = 0;
        while c < n
            invariant
                n == self.channels,
                n <= 4,
                c <= n,
                modes == self.modes@,
                out@ == before_constants + constants_of(modes, c as nat),
            decreases n - c,
        {
            match self.modes[c] {
                ChannelMode::Constant(v) => {
                    out.push(v);
                },
                _ => {},
            }
            proof {
                assert(out@ =~= before_constants + constants_of(modes, (c + 1) as nat));
            }
            c = c + 1;
        }
        proof {
            assert(out@ =~= old(out)@ + plan_bytes(self.channels, self.modes@));
        }
    }

    /// Parses and fully validates the channel section, returning it with bytes consumed.
    ///
    /// `bytes` starts at `channel_modes`. Enforces every channel rule of the format, so callers
    /// can trust the resulting plan.
    pub fn parse(bytes: &[u8], channels: u8) -> (r: Result<(Self, usize), BrpError>)
        requires
            channels <= 4,
        ensures
            match parse_plan(bytes@, channels) {
                Ok((modes, used)) => r matches Ok((p, u)) && p.spec_channels() == channels
                    && p.spec_modes() == modes && u == used,
                Err(e) => r == Err::<(Self, usize), BrpError>(e),
            },
            r matches Ok((_, u)) ==> u <= bytes@.len(),
    {
        let n = channels as usize;
        if bytes.len() == 0 {
            return Err(BrpError::HeaderTooShort { got: bytes.len(), need: 1 });
        }
        let modes_byte = bytes[0];
        let used_bits = 2 * n;
        proof {
            lemma_pow4_values();
            if n < 4 {
                lemma_shift_pow4(modes_byte, n as nat);
            }
        }
        if used_bits < 8 && (modes_byte >> (used_bits as u8)) != 0 {
            return Err(BrpError::ChannelModeBitsSet(modes_byte));
        }
        let mut codes = [MODE_CODED;MAX_CHANNELS];
        let mut alias_count: usize = 0;
        let mut constant_count: usize = 0;
        let mut c: usize = 0;
        while c < n
            invariant
                n == channels,
                n <= 4,
                c <= n,
                bytes@.len() > 0,
                modes_byte == bytes@[0],
                n < 4 ==> modes_byte as nat / pow4(n as nat) == 0,
                forall|i: int| 0 <= i < c ==> codes@[i] == code_of(modes_byte, i as nat),
                forall|i: int| c <= i < 4 ==> codes@[i] == MODE_CODED,
                alias_count == count_code(modes_byte, MODE_ALIAS, c as nat),
                constant_count == count_code(modes_byte, MODE_CONSTANT, c as nat),
                alias_count <= c,
                constant_count <= c,
                c > 0 ==> code_of(modes_byte, 0) != MODE_ALIAS,
                forall|i: nat| i < c ==> #[trigger] code_of(modes_byte, i) != MODE_RESERVED,
            decreases n - c,
        {
            let code = (modes_byte >> ((2 * c) as u8)) & 3;
            proof {
                lemma_code_of_shift(modes_byte, c as nat);
            }
            codes[c] = code;
            if code == MODE_CONSTANT {
                constant_count = constant_count + 1;
            } else if code == MODE_ALIAS {
                if c == 0 {
                    return Err(BrpError::AliasOnFirstChannel);
                }
                alias_count = alias_count + 1;
            } else if code == MODE_RESERVED {
                proof {
                    assert(code_of(modes_byte, c as nat) == MODE_RESERVED);
                    assert(n == 0 || code_of(modes_byte, 0) != MODE_ALIAS);
                }
                return Err(BrpError::ReservedChannelMode(MODE_RESERVED));
            }
            c = c + 1;
        }
        proof {
            assert(!(exists|c: nat| c < n && code_of(modes_byte, c) == MODE_RESERVED));
            assert(n == 0 || code_of(modes_byte, 0) != MODE_ALIAS);
        }
        let mut consumed: usize = 1;
        let alias_byte: u8 = if alias_count > 0 {
            if bytes.len() < 2 {
                return Err(BrpError::HeaderTooShort { got: bytes.len(), need: consumed + 1 });
            }
            let b = bytes[1];
            let used = 2 * alias_count;
            proof {
                if alias_count < 4 {
                    lemma_shift_pow4(b, alias_count as nat);
                }
            }
            if used < 8 && (b >> (used as u8)) != 0 {
                return Err(BrpError::AliasTargetBitsSet(b));
            }
            consumed = consumed + 1;
            b
        } else {
            0
        };
        let constants_at = consumed;
        proof {
            assert(parse_plan(bytes@, channels) == from_checks(
                bytes@,
                modes_byte,
                alias_byte,
                constants_at as nat,
                n as nat,
                constant_count as nat,
            ));
        }
        let mut modes = [ChannelMode::Coded;MAX_CHANNELS];
        let mut alias_slot: usize = 0;
        let mut constant_slot: usize = 0;
        let mut c: usize = 0;
        while c < n
            invariant
                n == channels,
                n <= 4,
                c <= n,
                constants_at <= 2,
                constants_at + constant_slot <= bytes@.len(),
                constant_count == count_code(modes_byte, MODE_CONSTANT, n as nat),
                parse_plan(bytes@, channels) == from_checks(
                    bytes@,
                    modes_byte,
                    alias_byte,
                    constants_at as nat,
                    n as nat,
                    constant_count as nat,
                ),
                forall|i: int| 0 <= i < c ==> codes@[i] == code_of(modes_byte, i as nat),
                forall|i: int| 0 <= i < n ==> codes@[i] == code_of(modes_byte, i as nat),
                alias_slot == count_code(modes_byte, MODE_ALIAS, c as nat),
                constant_slot == count_code(modes_byte, MODE_CONSTANT, c as nat),
                alias_slot <= c,
                constant_slot <= c,
                check_channels(bytes@, modes_byte, alias_byte, constants_at as nat, n as nat, 0)
                    == check_channels(
                    bytes@,
                    modes_byte,
                    alias_byte,
                    constants_at as nat,
                    n as nat,
                    c as nat,
                ),
                forall|i: int|
                    0 <= i < c ==> modes@[i] == mode_at(
                        bytes@,
                        modes_byte,
                        alias_byte,
                        constants_at as nat,
                        i as nat,
                    ),
                forall|i: int| c <= i < 4 ==> modes@[i] == ChannelMode::Coded,
            decreases n - c,
        {
            let code = codes[c];
            let ghost err = channel_error(
                bytes@,
                modes_byte,
                alias_byte,
                constants_at as nat,
                c as nat,
            );
            proof {
                assert(check_channels(
                    bytes@,
                    modes_byte,
                    alias_byte,
                    constants_at as nat,
                    n as nat,
                    c as nat,
                ) == match err {
                    Some(e) => Some(e),
                    None => check_channels(
                        bytes@,
                        modes_byte,
                        alias_byte,
                        constants_at as nat,
                        n as nat,
                        (c + 1) as nat,
                    ),
                });
            }
            if code == MODE_CONSTANT {
                if constants_at + constant_slot >= bytes.len() {
                    return Err(
                        BrpError::HeaderTooShort {
                            got: bytes.len(),
                            need: constants_at + constant_slot + 1,
                        },
                    );
                }
                let v = bytes[constants_at + constant_slot];
                modes[c] = ChannelMode::Constant(v);
                constant_slot = constant_slot + 1;
            } else if code == MODE_ALIAS {
                proof {
                    lemma_code_of_shift(alias_byte, alias_slot as nat);
                }
                let target = (alias_byte >> ((2 * alias_slot) as u8)) & 3;
                alias_slot = alias_slot + 1;
                if target as usize >= c {
                    return Err(BrpError::InvalidAliasTarget { channel: c as u8, target });
                }
                if codes[target as usize] != MODE_CODED {
                    return Err(BrpError::AliasTargetNotCoded { channel: c as u8, target });
                }
                modes[c] = ChannelMode::Alias(target);
            } else {
                modes[c] = ChannelMode::Coded;
            }
            c = c + 1;
        }
        consumed = consumed + constant_count;
        let p = ChannelPlan { channels, modes };
        proof {
            assert(p.modes@ =~= parse_modes(
                bytes@,
                modes_byte,
                alias_byte,
                constants_at as nat,
                n as nat,
            ));
        }
        Ok((p, consumed))
    }
}

pub open spec fn mode_code(m: ChannelMode) -> u8 {
    match m {
        ChannelMode::Coded => MODE_CODED,
        ChannelMode::Constant(_) => MODE_CONSTANT,
        ChannelMode::Alias(_) => MODE_ALIAS,
    }
}

/// Aliases among the first `c` channels.
pub open spec fn alias_count(modes: Seq<ChannelMode>, c: nat) -> nat
    decreases c,
{
    if c == 0 {
        0
    } else {
        alias_count(modes, (c - 1) as nat) + (if modes[c - 1] is Alias {
            1nat
        } else {
            0nat
        })
    }
}

/// Constants among the first `c` channels.
pub open spec fn constant_count(modes: Seq<ChannelMode>, c: nat) -> nat
    decreases c,
{
    if c == 0 {
        0
    } else {
        constant_count(modes, (c - 1) as nat) + (if modes[c - 1] is Constant {
            1nat
        } else {
            0nat
        })
    }
}

proof fn lemma_counts_bounded(modes: Seq<ChannelMode>, c: nat)
    ensures
        alias_count(modes, c) <= c,
        constant_count(modes, c) <= c,
    decreases c,
{
    if c > 0 {
        lemma_counts_bounded(modes, (c - 1) as nat);
    }
}

/// The two-bit mode codes of the first `c` channels, channel 0 in the low bits.
pub open spec fn modes_byte_of(modes: Seq<ChannelMode>, c: nat) -> nat
    decreases c,
{
    if c == 0 {
        0
    } else {
        modes_byte_of(modes, (c - 1) as nat) + (mode_code(modes[c - 1]) as nat) * pow4((c - 1) as nat)
    }
}

/// The alias targets among the first `c` channels, the first alias in the low bits.
pub open spec fn alias_byte_of(modes: Seq<ChannelMode>, c: nat) -> nat
    decreases c,
{
    if c == 0 {
        0
    } else {
        alias_byte_of(modes, (c - 1) as nat) + (match modes[c - 1] {
            ChannelMode::Alias(t) => (t as nat) * pow4(alias_count(modes, (c - 1) as nat)),
            _ => 0nat,
        })
    }
}

/// The constant values among the first `c` channels, in channel order.
pub open spec fn constants_of(modes: Seq<ChannelMode>, c: nat) -> Seq<u8>
    decreases c,
{
    if c == 0 {
        Seq::empty()
    } else {
        constants_of(modes, (c - 1) as nat) + (match modes[c - 1] {
            ChannelMode::Constant(v) => seq![v],
            _ => Seq::empty(),
        })
    }
}

/// The channel section of a header: the modes byte, the alias byte when any channel is an
/// alias, then one byte per constant channel.
pub open spec fn plan_bytes(channels: u8, modes: Seq<ChannelMode>) -> Seq<u8> {
    let n = channels as nat;
    seq![modes_byte_of(modes, n) as u8] + (if alias_count(modes, n) > 0 {
        seq![alias_byte_of(modes, n) as u8]
    } else {
        Seq::empty()
    }) + constants_of(modes, n)
}

proof fn lemma_constants_len(modes: Seq<ChannelMode>, c: nat)
    ensures
        constants_of(modes, c).len() == constant_count(modes, c),
    decreases c,
{
    if c > 0 {
        lemma_constants_len(modes, (c - 1) as nat);
    }
}

proof fn lemma_plan_bytes_len(channels: u8, modes: Seq<ChannelMode>)
    ensures
        plan_bytes(channels, modes).len() == 1 + (if alias_count(modes, channels as nat) > 0 {
            1nat
        } else {
            0nat
        }) + constant_count(modes, channels as nat),
{
    lemma_constants_len(modes, channels as nat);
}

proof fn lemma_pow4_values()
    ensures
        pow4(0) == 1,
        pow4(1) == 4,
        pow4(2) == 16,
        pow4(3) == 64,
        pow4(4) == 256,
{
    reveal_with_fuel(pow4, 5);
}

/// Or-ing a two-bit code above the fields already packed adds it.
proof fn lemma_or_shift(prev: u8, code: u8, c: nat)
    requires
        c < 4,
        code < 4,
        prev < pow4(c),
    ensures
        prev | (code << ((2 * c) as u8)) == prev + code * pow4(c),
        prev + code * pow4(c) < pow4(c + 1),
{
    lemma_pow4_values();
    if c == 0 {
        assert(prev | (code << 0u8) == prev + code) by (bit_vector)
            requires
                prev < 1,
                code < 4,
        ;
    } else if c == 1 {
        assert(prev | (code << 2u8) == prev + code * 4) by (bit_vector)
            requires
                prev < 4,
                code < 4,
        ;
    } else if c == 2 {
        assert(prev | (code << 4u8) == prev + code * 16) by (bit_vector)
            requires
                prev < 16,
                code < 4,
        ;
    } else {
        assert(prev | (code << 6u8) == prev + code * 64) by (bit_vector)
            requires
                prev < 64,
                code < 4,
        ;
    }
}

proof fn lemma_modes_byte_bound(modes: Seq<ChannelMode>, c: nat)
    ensures
        modes_byte_of(modes, c) < pow4(c),
    decreases c,
{
    if c > 0 {
        lemma_modes_byte_bound(modes, (c - 1) as nat);
        assert(pow4(c) == 4 * pow4((c - 1) as nat));
        assert(mode_code(modes[c - 1]) < 4);
        assert((mode_code(modes[c - 1]) as nat) * pow4((c - 1) as nat) <= 3 * pow4((c - 1) as nat))
            by (nonlinear_arith)
            requires
                mode_code(modes[c - 1]) < 4,
        ;
    }
}

proof fn lemma_alias_byte_bound(modes: Seq<ChannelMode>, c: nat)
    requires
        forall|i: int| 0 <= i < c && (#[trigger] modes[i]) is Alias ==> target_of(modes[i]) < 4,
    ensures
        alias_byte_of(modes, c) < pow4(alias_count(modes, c)),
    decreases c,
{
    if c > 0 {
        lemma_alias_byte_bound(modes, (c - 1) as nat);
        let a = alias_count(modes, (c - 1) as nat);
        match modes[c - 1] {
            ChannelMode::Alias(t) => {
                assert(target_of(modes[c - 1]) == t);
                assert(pow4(a + 1) == 4 * pow4(a));
                assert((t as nat) * pow4(a) <= 3 * pow4(a)) by (nonlinear_arith)
                    requires
                        t < 4,
                ;
            },
            _ => {},
        }
    }
}

/// `b >> 2n` is `b / 4^n`.
proof fn lemma_shift_pow4(b: u8, n: nat)
    requires
        n < 4,
    ensures
        b >> ((2 * n) as u8) == b as nat / pow4(n),
{
    assert(pow4(0) == 1 && pow4(1) == 4 && pow4(2) == 16 && pow4(3) == 64) by {
        reveal_with_fuel(pow4, 4);
    }
    if n == 0 {
        assert(b >> 0u8 == b / 1) by (bit_vector);
    } else if n == 1 {
        assert(b >> 2u8 == b / 4) by (bit_vector);
    } else if n == 2 {
        assert(b >> 4u8 == b / 16) by (bit_vector);
    } else {
        assert(b >> 6u8 == b / 64) by (bit_vector);
    }
}

/// The mode a well-formed section gives channel `c`.
pub open spec fn mode_at(bytes: Seq<u8>, mb: u8, ab: u8, at: nat, c: nat) -> ChannelMode {
    let code = code_of(mb, c);
    if code == MODE_CONSTANT {
        ChannelMode::Constant(bytes[(at + count_code(mb, MODE_CONSTANT, c)) as int])
    } else if code == MODE_ALIAS {
        ChannelMode::Alias(code_of(ab, count_code(mb, MODE_ALIAS, c)))
    } else {
        ChannelMode::Coded
    }
}

pub open spec fn parse_modes(bytes: Seq<u8>, mb: u8, ab: u8, at: nat, n: nat) -> Seq<ChannelMode> {
    Seq::new(
        4,
        |c: int|
            if c < n {
                mode_at(bytes, mb, ab, at, c as nat)
            } else {
                ChannelMode::Coded
            },
    )
}

/// The error channel `c` raises, if any, once the modes byte has passed its own checks.
pub open spec fn channel_error(bytes: Seq<u8>, mb: u8, ab: u8, at: nat, c: nat) -> Option<
    BrpError,
> {
    let code = code_of(mb, c);
    if code == MODE_CONSTANT {
        let slot = count_code(mb, MODE_CONSTANT, c);
        if at + slot >= bytes.len() {
            Some(BrpError::HeaderTooShort { got: bytes.len() as usize, need: (at + slot + 1) as usize })
        } else {
            None
        }
    } else if code == MODE_ALIAS {
        let target = code_of(ab, count_code(mb, MODE_ALIAS, c));
        if target >= c {
            Some(BrpError::InvalidAliasTarget { channel: c as u8, target })
        } else if code_of(mb, target as nat) != MODE_CODED {
            Some(BrpError::AliasTargetNotCoded { channel: c as u8, target })
        } else {
            None
        }
    } else {
        None
    }
}

/// The first error among channels `c..n`.
pub open spec fn check_channels(bytes: Seq<u8>, mb: u8, ab: u8, at: nat, n: nat, c: nat) -> Option<
    BrpError,
>
    decreases n - c,
{
    if c >= n {
        None
    } else {
        match channel_error(bytes, mb, ab, at, c) {
            Some(e) => Some(e),
            None => check_channels(bytes, mb, ab, at, n, c + 1),
        }
    }
}

/// The outcome once the modes byte and alias byte have passed their checks.
pub open spec fn from_checks(bytes: Seq<u8>, mb: u8, ab: u8, at: nat, n: nat, cc: nat) -> Result<
    (Seq<ChannelMode>, nat),
    BrpError,
> {
    match check_channels(bytes, mb, ab, at, n, 0) {
        Some(e) => Err(e),
        None => Ok((parse_modes(bytes, mb, ab, at, n), at + cc)),
    }
}

/// What parsing a channel section yields: the four modes and the bytes consumed, or the first
/// rule the section breaks.
pub open spec fn parse_plan(bytes: Seq<u8>, channels: u8) -> Result<(Seq<ChannelMode>, nat), BrpError> {
    let n = channels as nat;
    if bytes.len() == 0 {
        Err(BrpError::HeaderTooShort { got: 0, need: 1 })
    } else {
        let mb = bytes[0];
        if n < 4 && mb as nat / pow4(n) != 0 {
            Err(BrpError::ChannelModeBitsSet(mb))
        } else if n > 0 && code_of(mb, 0) == MODE_ALIAS {
            Err(BrpError::AliasOnFirstChannel)
        } else if exists|c: nat| c < n && code_of(mb, c) == MODE_RESERVED {
            Err(BrpError::ReservedChannelMode(MODE_RESERVED))
        } else {
            let ac = count_code(mb, MODE_ALIAS, n);
            let cc = count_code(mb, MODE_CONSTANT, n);
            if ac > 0 && bytes.len() < 2 {
                Err(BrpError::HeaderTooShort { got: bytes.len() as usize, need: 2 })
            } else if ac > 0 && ac < 4 && bytes[1] as nat / pow4(ac) != 0 {
                Err(BrpError::AliasTargetBitsSet(bytes[1]))
            } else {
                let ab = if ac > 0 {
                    bytes[1]
                } else {
                    0u8
                };
                let at: nat = if ac > 0 {
                    2
                } else {
                    1
                };
                from_checks(bytes, mb, ab, at, n, cc)
            }
        }
    }
}

/// The ascending list of coded channel indices, as a fixed-size array to keep it off the heap.
#[derive(Debug, Clone, Copy)]
pub struct CodedIndices {
    indices: [u8; MAX_CHANNELS],
    len: usize,
}

impl CodedIndices {
    /// The image channel coded in each slot.
    pub closed spec fn spec_slots(&self) -> Seq<usize> {
        Seq::new(self.len as nat, |i: int| self.indices@[i] as usize)
    }

    pub closed spec fn wf(&self) -> bool {
        &&& self.len <= MAX_CHANNELS
        &&& ascending_below(self.spec_slots(), 4)
    }

    pub proof fn lemma_wf(&self)
        requires
            self.wf(),
        ensures
            self.spec_slots().len() <= 4,
            ascending_below(self.spec_slots(), 4),
    {
    }

    pub fn len(&self) -> (n: usize)
        ensures
            n == self.spec_slots().len(),
    {
        self.len
    }

    pub fn is_empty(&self) -> (b: bool)
        ensures
            b == (self.spec_slots().len() == 0),
    {
        self.len == 0
    }

    /// The image channel index coded in slot `slot`.
    pub fn channel(&self, slot: usize) -> (c: usize)
        requires
            self.wf(),
            slot < self.spec_slots().len(),
        ensures
            c == self.spec_slots()[slot as int],
    {
        self.indices[slot] as usize
    }
}

/// Which optimizations the encoder is allowed to apply in stage 1.
#[derive(Debug, Clone, Copy, PartialEq, Eq)]
pub struct ChannelOptions {
    /// Elide a channel whose samples are all identical.
    pub constants: bool,
    /// Elide a channel identical to an earlier one.
    pub aliases: bool,
}

impl Default for ChannelOptions {
    fn default() -> (o: Self)
        ensures
            o.constants && o.aliases,
    {
        ChannelOptions { constants: true, aliases: true }
    }
}

/// Sample `t` of the channel starting at `start`, in an interleaved buffer of `stride` channels.
pub open spec fn plane_at(start: nat, stride: nat, t: nat) -> nat {
    start + t * stride
}

/// Every sample of a channel is `v`, and there is at least one.
pub open spec fn plane_constant(data: Seq<u8>, channel: nat, stride: nat) -> bool {
    &&& channel < data.len()
    &&& forall|t: nat|
        plane_at(channel, stride, t) < data.len() ==> #[trigger] data[plane_at(
            channel,
            stride,
            t,
        ) as int] == data[channel as int]
}

/// Two channels agree at every pixel both have.
pub open spec fn planes_match(data: Seq<u8>, stride: nat, a: nat, b: nat) -> bool {
    forall|t: nat|
        plane_at(a, stride, t) < data.len() && plane_at(b, stride, t) < data.len() ==> data[plane_at(
            a,
            stride,
            t,
        ) as int] == #[trigger] data[plane_at(b, stride, t) as int]
}

/// The mode stage 1 gives channel `c` once the constant pass is done: constant or still coded.
pub open spec fn constant_pass(data: Seq<u8>, stride: nat, opts: ChannelOptions, c: nat) -> ChannelMode {
    if opts.constants && plane_constant(data, c, stride) {
        ChannelMode::Constant(data[c as int])
    } else {
        ChannelMode::Coded
    }
}

/// The mode stage 1 gives channel `c`: a constant first, then an alias of the first earlier
/// channel that is itself coded and identical, then coded.
pub open spec fn planned_mode(data: Seq<u8>, stride: nat, opts: ChannelOptions, c: nat) -> ChannelMode
    decreases c, 1nat, 0nat,
{
    if constant_pass(data, stride, opts, c) != ChannelMode::Coded {
        constant_pass(data, stride, opts, c)
    } else if opts.aliases && c >= 1 {
        match alias_target(data, stride, opts, c, 0) {
            Some(k) => ChannelMode::Alias(k as u8),
            None => ChannelMode::Coded,
        }
    } else {
        ChannelMode::Coded
    }
}

/// The first channel from `k` up to `c` that stays coded and matches channel `c`.
pub open spec fn alias_target(data: Seq<u8>, stride: nat, opts: ChannelOptions, c: nat, k: nat) -> Option<nat>
    decreases c, 0nat, c - k,
{
    if k >= c {
        None
    } else if planned_mode(data, stride, opts, k) == ChannelMode::Coded && planes_match(
        data,
        stride,
        k,
        c,
    ) {
        Some(k)
    } else {
        alias_target(data, stride, opts, c, k + 1)
    }
}

/// The plan stage 1 makes for an image of `channels` interleaved channels.
pub open spec fn planned_modes(data: Seq<u8>, channels: u8, opts: ChannelOptions) -> Seq<ChannelMode> {
    Seq::new(
        4,
        |c: int|
            if c < channels {
                planned_mode(data, channels as nat, opts, c as nat)
            } else {
                ChannelMode::Coded
            },
    )
}

/// Classifies every channel of an interleaved image.
///
/// Constants are found first, so a channel that is both constant and a duplicate is stored as a
/// constant — cheaper, and it leaves nothing for an alias to point at.
pub fn plan(data: &[u8], channels: u8, opts: &ChannelOptions) -> (p: ChannelPlan)
    requires
        channels <= 4,
        data@.len() + 4 <= usize::MAX,
    ensures
        p.spec_channels() == channels,
        p.spec_modes() == planned_modes(data@, channels, *opts),
{
    let n = channels as usize;
    let mut modes = [ChannelMode::Coded;MAX_CHANNELS];
    if opts.constants {
        let mut c: usize = 0;
        while c < n
            invariant
                n == channels,
                n <= 4,
                c <= n,
                opts.constants,
                data@.len() + 4 <= usize::MAX,
                forall|i: int| 0 <= i < c ==> modes@[i] == constant_pass(data@, n as nat, *opts, i as nat),
                forall|i: int| c <= i < 4 ==> modes@[i] == ChannelMode::Coded,
            decreases n - c,
        {
            let (min, max) = scan_plane(data, c, n);
            if min == max {
                modes[c] = ChannelMode::Constant(min);
            }
            proof {
                if min == max {
                    assert(plane_constant(data@, c as nat, n as nat)) by {
                        assert(data@[plane_at(c as nat, n as nat, 0) as int] == min || true);
                        assert(plane_at(c as nat, n as nat, 0) == c);
                    }
                } else {
                    if plane_constant(data@, c as nat, n as nat) {
                        assert(data@[plane_at(c as nat, n as nat, 0) as int] == data@[c as int]);
                    }
                }
            }
            c = c + 1;
        }
    }
    proof {
        assert forall|i: int| 0 <= i < n implies modes@[i] == constant_pass(data@, n as nat, *opts, i as nat) by {
        }
    }
    if opts.aliases {
        let mut c: usize = 1;
        while c < n
            invariant
                n == channels,
                n <= 4,
                1 <= c,
                opts.aliases,
                data@.len() + 4 <= usize::MAX,
                forall|i: int| 0 <= i < c && i < n ==> modes@[i] == planned_mode(data@, n as nat, *opts, i as nat),
                forall|i: int| c <= i < n ==> modes@[i] == constant_pass(data@, n as nat, *opts, i as nat),
                forall|i: int| n <= i < 4 ==> modes@[i] == ChannelMode::Coded,
            decreases n - c,
        {
            if modes[c] == ChannelMode::Coded {
                let mut k: usize = 0;
                let mut found = false;
                while k < c && !found
                    invariant
                        n == channels,
                        n <= 4,
                        1 <= c < n,
                        k <= c,
                        opts.aliases,
                        data@.len() + 4 <= usize::MAX,
                        constant_pass(data@, n as nat, *opts, c as nat) == ChannelMode::Coded,
                        forall|i: int| 0 <= i < c ==> modes@[i] == planned_mode(data@, n as nat, *opts, i as nat),
                        forall|i: int| c < i < n ==> modes@[i] == constant_pass(data@, n as nat, *opts, i as nat),
                        forall|i: int| n <= i < 4 ==> modes@[i] == ChannelMode::Coded,
                        !found ==> modes@[c as int] == ChannelMode::Coded,
                        !found ==> alias_target(data@, n as nat, *opts, c as nat, 0) == alias_target(data@, n as nat, *opts, c as nat, k as nat),
                        found ==> modes@[c as int] == planned_mode(data@, n as nat, *opts, c as nat),
                    decreases c - k + (if found {
                        0int
                    } else {
                        1int
                    }),
                {
                    if modes[k] == ChannelMode::Coded && planes_equal(data, n, k, c) {
                        modes[c] = ChannelMode::Alias(k as u8);
                        found = true;
                    } else {
                        k = k + 1;
                    }
                }
                proof {
                    if !found {
                        assert(alias_target(data@, n as nat, *opts, c as nat, c as nat) == None::<nat>);
                    }
                }
            }
            c = c + 1;
        }
    }
    let p = ChannelPlan { channels, modes };
    proof {
        assert forall|i: int| 0 <= i < 4 implies p.modes@[i] == planned_modes(data@, channels, *opts)[i] by {
            if i < n && !opts.aliases {
                assert(planned_mode(data@, n as nat, *opts, i as nat) == constant_pass(data@, n as nat, *opts, i as nat));
            }
            if i == 0 && n > 0 {
                assert(planned_mode(data@, n as nat, *opts, 0) == constant_pass(data@, n as nat, *opts, 0));
            }
        }
        assert(p.modes@ =~= planned_modes(data@, channels, *opts));
    }
    p
}

/// Minimum and maximum of one channel across a whole image; `(255, 0)` for an empty channel.
pub fn scan_plane(data: &[u8], channel: usize, stride: usize) -> (r: (u8, u8))
    requires
        stride > 0,
        data@.len() + stride <= usize::MAX,
    ensures
        forall|t: nat| plane_at(channel as nat, stride as nat, t) < data@.len() ==> r.0 <= #[trigger] data@[plane_at(channel as nat, stride as nat, t) as int] <= r.1,
        channel < data@.len() ==> exists|t: nat| plane_at(channel as nat, stride as nat, t) < data@.len() && #[trigger] data@[plane_at(channel as nat, stride as nat, t) as int] == r.0,
        channel < data@.len() ==> exists|t: nat| plane_at(channel as nat, stride as nat, t) < data@.len() && #[trigger] data@[plane_at(channel as nat, stride as nat, t) as int] == r.1,
        channel >= data@.len() ==> r == (255u8, 0u8),
{
    let mut min: u8 = 255;
    let mut max: u8 = 0;
    let mut i = channel;
    let ghost mut t: nat = 0;
    while i < data.len()
        invariant
            stride > 0,
            data@.len() + stride <= usize::MAX,
            i == plane_at(channel as nat, stride as nat, t),
            forall|u: nat| u < t && plane_at(channel as nat, stride as nat, u) < data@.len() ==> min <= #[trigger] data@[plane_at(channel as nat, stride as nat, u) as int] <= max,
            t > 0 ==> exists|u: nat| u < t && plane_at(channel as nat, stride as nat, u) < data@.len() && #[trigger] data@[plane_at(channel as nat, stride as nat, u) as int] == min,
            t > 0 ==> exists|u: nat| u < t && plane_at(channel as nat, stride as nat, u) < data@.len() && #[trigger] data@[plane_at(channel as nat, stride as nat, u) as int] == max,
            t == 0 ==> min == 255 && max == 0,
            t == 0 ==> i == channel,
        decreases data@.len() + stride - i,
    {
        let v = data[i];
        let ghost prev_min = min;
        let ghost prev_max = max;
        if v < min {
            min = v;
        }
        if v > max {
            max = v;
        }
        proof {
            assert(plane_at(channel as nat, stride as nat, t + 1) == i + stride) by (nonlinear_arith)
                requires i == plane_at(channel as nat, stride as nat, t);
            if t > 0 {
                let u1 = choose|u: nat| u < t && plane_at(channel as nat, stride as nat, u) < data@.len() && #[trigger] data@[plane_at(channel as nat, stride as nat, u) as int] == prev_min;
                let u2 = choose|u: nat| u < t && plane_at(channel as nat, stride as nat, u) < data@.len() && #[trigger] data@[plane_at(channel as nat, stride as nat, u) as int] == prev_max;
                if v >= prev_min {
                    assert(data@[plane_at(channel as nat, stride as nat, u1) as int] == min);
                }
                if v <= prev_max {
                    assert(data@[plane_at(channel as nat, stride as nat, u2) as int] == max);
                }
            }
            assert(data@[plane_at(channel as nat, stride as nat, t) as int] == v);
        }
        i = i + stride;
        proof {
            t = t + 1;
        }
    }
    proof {
        assert forall|u: nat| plane_at(channel as nat, stride as nat, u) < data@.len() implies u < t by {
            if u >= t {
                assert(plane_at(channel as nat, stride as nat, u) >= plane_at(channel as nat, stride as nat, t)) by (nonlinear_arith)
                    requires u >= t;
            }
        }
    }
    (min, max)
}

/// True if two channels hold identical samples at every pixel.
fn planes_equal(data: &[u8], stride: usize, a: usize, b: usize) -> (r: bool)
    requires
        stride > 0,
        data@.len() + stride <= usize::MAX,
    ensures
        r == planes_match(data@, stride as nat, a as nat, b as nat),
{
    let mut i = a;
    let mut j = b;
    let ghost mut t: nat = 0;
    while i < data.len() && j < data.len()
        invariant
            stride > 0,
            data@.len() + stride <= usize::MAX,
            i == plane_at(a as nat, stride as nat, t),
            j == plane_at(b as nat, stride as nat, t),
            forall|u: nat| #![trigger plane_at(a as nat, stride as nat, u)] u < t ==> plane_at(a as nat, stride as nat, u) < data@.len() && plane_at(b as nat, stride as nat, u) < data@.len() && data@[plane_at(a as nat, stride as nat, u) as int] == #[trigger] data@[plane_at(b as nat, stride as nat, u) as int],
        decreases data@.len() + stride - i,
    {
        if data[i] != data[j] {
            proof {
                assert(data@[plane_at(a as nat, stride as nat, t) as int] != data@[plane_at(b as nat, stride as nat, t) as int]);
            }
            return false;
        }
        proof {
            assert(data@[plane_at(a as nat, stride as nat, t) as int] == data@[plane_at(b as nat, stride as nat, t) as int]);
            assert(plane_at(a as nat, stride as nat, t + 1) == i + stride) by (nonlinear_arith)
                requires i == plane_at(a as nat, stride as nat, t);
            assert(plane_at(b as nat, stride as nat, t + 1) == j + stride) by (nonlinear_arith)
                requires j == plane_at(b as nat, stride as nat, t);
        }
        i = i + stride;
        j = j + stride;
        proof {
            t = t + 1;
        }
    }
    proof {
        assert forall|u: nat| plane_at(a as nat, stride as nat, u) < data@.len() && plane_at(b as nat, stride as nat, u) < data@.len() implies data@[plane_at(a as nat, stride as nat, u) as int] == #[trigger] data@[plane_at(b as nat, stride as nat, u) as int] by {
            if u >= t {
                assert(plane_at(a as nat, stride as nat, u) >= plane_at(a as nat, stride as nat, t) && plane_at(b as nat, stride as nat, u) >= plane_at(b as nat, stride as nat, t)) by (nonlinear_arith)
                    requires u >= t;
            }
        }
    }
    true
}

/// Bits `2c..2c+2` of a modes or alias byte.
pub open spec fn code_of(b: u8, c: nat) -> u8 {
    ((b as nat / pow4(c)) % 4) as u8
}

pub open spec fn pow4(c: nat) -> nat
    decreases c,
{
    if c == 0 {
        1
    } else {
        4 * pow4((c - 1) as nat)
    }
}

/// How many of the first `c` two-bit fields of `b` hold `code`.
pub open spec fn count_code(b: u8, code: u8, c: nat) -> nat
    decreases c,
{
    if c == 0 {
        0
    } else {
        count_code(b, code, (c - 1) as nat) + (if code_of(b, (c - 1) as nat) == code {
            1nat
        } else {
            0nat
        })
    }
}

proof fn lemma_code_of_shift(b: u8, c: nat)
    requires
        c < 4,
    ensures
        (b >> ((2 * c) as u8)) & 3 == code_of(b, c),
        code_of(b, c) < 4,
{
    assert(pow4(0) == 1 && pow4(1) == 4 && pow4(2) == 16 && pow4(3) == 64) by {
        reveal_with_fuel(pow4, 4);
    }
    if c == 0 {
        assert((b >> 0u8) & 3 == b % 4) by (bit_vector);
    } else if c == 1 {
        assert((b >> 2u8) & 3 == (b / 4) % 4) by (bit_vector);
    } else if c == 2 {
        assert((b >> 4u8) & 3 == (b / 16) % 4) by (bit_vector);
    } else {
        assert((b >> 6u8) & 3 == (b / 64) % 4) by (bit_vector);
    }
}

proof fn lemma_code_of_bound(b: u8, c: nat)
    ensures
        code_of(b, c) < 4,
{
}


} // verus!

verus! {

/// A list of base-4 digits, least significant first, read as a number.
pub open spec fn digits_val(ds: Seq<u8>) -> nat
    decreases ds.len(),
{
    if ds.len() == 0 {
        0
    } else {
        digits_val(ds.drop_last()) + (ds.last() as nat) * pow4((ds.len() - 1) as nat)
    }
}

/// The digit at position `i`, zero past the end.
pub open spec fn digit(ds: Seq<u8>, i: int) -> u8 {
    if 0 <= i < ds.len() {
        ds[i]
    } else {
        0
    }
}

proof fn lemma_digits_val_unrolled(ds: Seq<u8>)
    requires
        ds.len() <= 4,
    ensures
        digits_val(ds) == digit(ds, 0) as nat + 4 * (digit(ds, 1) as nat) + 16 * (digit(ds, 2) as nat)
            + 64 * (digit(ds, 3) as nat),
    decreases ds.len(),
{
    lemma_pow4_values();
    if ds.len() > 0 {
        let d = ds.drop_last();
        lemma_digits_val_unrolled(d);
        let l = ds.len() - 1;
        assert(digit(d, 0) == (if l == 0 { 0 } else { digit(ds, 0) }));
        assert(digit(d, 1) == (if l == 1 { 0 } else { digit(ds, 1) }));
        assert(digit(d, 2) == (if l == 2 { 0 } else { digit(ds, 2) }));
        assert(digit(d, 3) == (if l == 3 { 0 } else { digit(ds, 3) }));
        assert(digit(ds, l) == ds.last());
        if l == 0 {
            assert(digits_val(ds) == digits_val(d) + (ds.last() as nat) * 1);
        } else if l == 1 {
            assert(digits_val(ds) == digits_val(d) + (ds.last() as nat) * 4);
        } else if l == 2 {
            assert(digits_val(ds) == digits_val(d) + (ds.last() as nat) * 16);
        } else {
            assert(digits_val(ds) == digits_val(d) + (ds.last() as nat) * 64);
        }
    }
}

/// Reading the digits of four two-bit fields back.
proof fn lemma_four_digits(d0: u8, d1: u8, d2: u8, d3: u8)
    requires
        d0 < 4,
        d1 < 4,
        d2 < 4,
        d3 < 4,
    ensures
        ({
            let x = (d0 + 4 * d1 + 16 * d2 + 64 * d3) as u8;
            &&& x as int == d0 + 4 * d1 + 16 * d2 + 64 * d3
            &&& x % 4 == d0
            &&& (x / 4) % 4 == d1
            &&& (x / 16) % 4 == d2
            &&& (x / 64) % 4 == d3
            &&& (d3 == 0 ==> x / 64 == 0)
            &&& (d3 == 0 && d2 == 0 ==> x / 16 == 0)
            &&& (d3 == 0 && d2 == 0 && d1 == 0 ==> x / 4 == 0)
            &&& (d3 == 0 && d2 == 0 && d1 == 0 && d0 == 0 ==> x == 0)
        }),
{
    assert({
        let x = (d0 + 4 * d1 + 16 * d2 + 64 * d3) as u8;
        &&& x as int == d0 + 4 * d1 + 16 * d2 + 64 * d3
        &&& x % 4 == d0
        &&& (x / 4) % 4 == d1
        &&& (x / 16) % 4 == d2
        &&& (x / 64) % 4 == d3
        &&& (d3 == 0 ==> x / 64 == 0)
        &&& (d3 == 0 && d2 == 0 ==> x / 16 == 0)
        &&& (d3 == 0 && d2 == 0 && d1 == 0 ==> x / 4 == 0)
        &&& (d3 == 0 && d2 == 0 && d1 == 0 && d0 == 0 ==> x == 0)
    }) by (bit_vector)
        requires
            d0 < 4,
            d1 < 4,
            d2 < 4,
            d3 < 4,
    ;
}

/// Up to four digits survive being packed into a byte and read back one field at a time.
pub proof fn lemma_digits_read_back(ds: Seq<u8>)
    requires
        ds.len() <= 4,
        forall|i: int| 0 <= i < ds.len() ==> ds[i] < 4,
    ensures
        digits_val(ds) < 256,
        forall|i: nat| i < ds.len() ==> #[trigger] code_of(digits_val(ds) as u8, i) == ds[i as int],
        ds.len() < 4 ==> digits_val(ds) / pow4(ds.len()) == 0,
{
    lemma_pow4_values();
    lemma_digits_val_unrolled(ds);
    let (d0, d1, d2, d3) = (digit(ds, 0), digit(ds, 1), digit(ds, 2), digit(ds, 3));
    lemma_four_digits(d0, d1, d2, d3);
    assert(forall|i: int| ds.len() <= i ==> digit(ds, i) == 0);
    let x = (d0 + 4 * d1 + 16 * d2 + 64 * d3) as u8;
    assert(digits_val(ds) == x as nat);
    assert forall|i: nat| i < ds.len() implies #[trigger] code_of(digits_val(ds) as u8, i) == ds[i as int] by {
        assert(digit(ds, i as int) == ds[i as int]);
        assert(digits_val(ds) as u8 == x);
        if i == 0 {
            assert(code_of(x, 0) == x % 4);
        } else if i == 1 {
            assert(code_of(x, 1) == (x / 4) % 4);
        } else if i == 2 {
            assert(code_of(x, 2) == (x / 16) % 4);
        } else {
            assert(code_of(x, 3) == (x / 64) % 4);
        }
    }
}

/// The mode codes of the first `n` channels.
pub open spec fn mode_codes(modes: Seq<ChannelMode>, n: nat) -> Seq<u8> {
    Seq::new(n, |i: int| mode_code(modes[i]))
}

/// The targets of the aliases among the first `c` channels, in channel order.
pub open spec fn alias_targets(modes: Seq<ChannelMode>, c: nat) -> Seq<u8>
    decreases c,
{
    if c == 0 {
        Seq::empty()
    } else if modes[c - 1] is Alias {
        alias_targets(modes, (c - 1) as nat).push(target_of(modes[c - 1]))
    } else {
        alias_targets(modes, (c - 1) as nat)
    }
}

proof fn lemma_modes_byte_digits(modes: Seq<ChannelMode>, n: nat)
    ensures
        modes_byte_of(modes, n) == digits_val(mode_codes(modes, n)),
    decreases n,
{
    if n > 0 {
        lemma_modes_byte_digits(modes, (n - 1) as nat);
        assert(mode_codes(modes, n).drop_last() =~= mode_codes(modes, (n - 1) as nat));
    } else {
        assert(mode_codes(modes, 0) =~= Seq::<u8>::empty());
    }
}

proof fn lemma_alias_targets(modes: Seq<ChannelMode>, n: nat)
    requires
        forall|c: int| 0 <= c < n && (#[trigger] modes[c]) is Alias ==> target_of(modes[c]) < 4,
    ensures
        alias_byte_of(modes, n) == digits_val(alias_targets(modes, n)),
        alias_targets(modes, n).len() == alias_count(modes, n),
        forall|c: int|
            0 <= c < n && (#[trigger] modes[c]) is Alias ==> alias_count(modes, c as nat) < alias_count(
                modes,
                n,
            ) && alias_targets(modes, n)[alias_count(modes, c as nat) as int] == target_of(
                modes[c],
            ),
        forall|j: int|
            0 <= j < alias_targets(modes, n).len() ==> #[trigger] alias_targets(modes, n)[j] < 4,
    decreases n,
{
    if n > 0 {
        let m = (n - 1) as nat;
        lemma_alias_targets(modes, m);
        lemma_alias_count_mono(modes, m);
        let prev = alias_targets(modes, m);
        if modes[m as int] is Alias {
            assert(alias_targets(modes, n).drop_last() =~= prev);
            assert forall|c: int| 0 <= c < n && (#[trigger] modes[c]) is Alias implies alias_count(
                modes,
                c as nat,
            ) < alias_count(modes, n) && alias_targets(modes, n)[alias_count(modes, c as nat) as int]
                == target_of(modes[c]) by {
                if c < m {
                    lemma_alias_count_le(modes, c as nat, m);
                }
            }
            assert forall|j: int| 0 <= j < alias_targets(modes, n).len() implies #[trigger] alias_targets(
                modes,
                n,
            )[j] < 4 by {
                if j < prev.len() {
                    assert(alias_targets(modes, n)[j] == prev[j]);
                } else {
                    assert(alias_targets(modes, n)[j] == target_of(modes[m as int]));
                }
            }
        } else {
            assert forall|c: int| 0 <= c < n && (#[trigger] modes[c]) is Alias implies alias_count(
                modes,
                c as nat,
            ) < alias_count(modes, n) && alias_targets(modes, n)[alias_count(modes, c as nat) as int]
                == target_of(modes[c]) by {
                if c < m {
                    lemma_alias_count_le(modes, c as nat, m);
                }
            }
        }
    } else {
        assert(alias_targets(modes, 0) =~= Seq::<u8>::empty());
    }
}

proof fn lemma_alias_count_mono(modes: Seq<ChannelMode>, c: nat)
    ensures
        alias_count(modes, c) <= alias_count(modes, c + 1),
        modes[c as int] is Alias ==> alias_count(modes, c) < alias_count(modes, c + 1),
{
}

/// An alias at `c` below `m` counts strictly fewer aliases before it than there are before `m`.
proof fn lemma_alias_count_le(modes: Seq<ChannelMode>, c: nat, m: nat)
    requires
        c < m,
        modes[c as int] is Alias,
    ensures
        alias_count(modes, c) < alias_count(modes, m),
    decreases m - c,
{
    if c + 1 < m {
        lemma_alias_count_le(modes, c, (m - 1) as nat);
    }
}

/// Counting codes in the packed byte counts modes in the plan.
proof fn lemma_counts_match(modes: Seq<ChannelMode>, mb: u8, n: nat, c: nat)
    requires
        c <= n,
        forall|i: nat| i < n ==> #[trigger] code_of(mb, i) == mode_code(modes[i as int]),
    ensures
        count_code(mb, MODE_ALIAS, c) == alias_count(modes, c),
        count_code(mb, MODE_CONSTANT, c) == constant_count(modes, c),
    decreases c,
{
    if c > 0 {
        lemma_counts_match(modes, mb, n, (c - 1) as nat);
        assert(code_of(mb, (c - 1) as nat) == mode_code(modes[c - 1]));
    }
}

proof fn lemma_constants_at(modes: Seq<ChannelMode>, n: nat)
    ensures
        constants_of(modes, n).len() == constant_count(modes, n),
        forall|c: int|
            0 <= c < n && (#[trigger] modes[c]) is Constant ==> constant_count(modes, c as nat)
                < constant_count(modes, n) && modes[c] == ChannelMode::Constant(
                constants_of(modes, n)[constant_count(modes, c as nat) as int],
            ),
    decreases n,
{
    lemma_constants_len(modes, n);
    if n > 0 {
        let m = (n - 1) as nat;
        lemma_constants_at(modes, m);
        lemma_constants_len(modes, m);
        assert forall|c: int| 0 <= c < n && (#[trigger] modes[c]) is Constant implies constant_count(
            modes,
            c as nat,
        ) < constant_count(modes, n) && modes[c] == ChannelMode::Constant(
            constants_of(modes, n)[constant_count(modes, c as nat) as int],
        ) by {
            if c < m {
                lemma_constant_count_le(modes, c as nat, m);
                assert(constants_of(modes, n)[constant_count(modes, c as nat) as int]
                    == constants_of(modes, m)[constant_count(modes, c as nat) as int]);
            } else {
                match modes[c] {
                    ChannelMode::Constant(v) => {
                        assert(constants_of(modes, n) == constants_of(modes, m) + seq![v]);
                    },
                    _ => {},
                }
            }
        }
    }
}

proof fn lemma_constant_count_le(modes: Seq<ChannelMode>, c: nat, m: nat)
    requires
        c < m,
        modes[c as int] is Constant,
    ensures
        constant_count(modes, c) < constant_count(modes, m),
    decreases m - c,
{
    if c + 1 < m {
        lemma_constant_count_le(modes, c, (m - 1) as nat);
    }
}

/// The channel section a plan writes parses back to that plan, consuming exactly its own bytes,
/// whatever follows it.
pub proof fn lemma_plan_round_trip(channels: u8, modes: Seq<ChannelMode>, rest: Seq<u8>)
    requires
        modes_wf(channels, modes),
    ensures
        parse_plan(plan_bytes(channels, modes) + rest, channels) == Ok::<
            (Seq<ChannelMode>, nat),
            BrpError,
        >((modes, plan_bytes(channels, modes).len())),
{
    let n = channels as nat;
    let bytes = plan_bytes(channels, modes) + rest;
    lemma_pow4_values();
    // The modes byte.
    let codes = mode_codes(modes, n);
    lemma_modes_byte_digits(modes, n);
    assert forall|i: int| 0 <= i < codes.len() implies codes[i] < 4 by {
        assert(mode_code(modes[i]) <= 2);
    }
    lemma_digits_read_back(codes);
    let mb = modes_byte_of(modes, n) as u8;
    assert(bytes[0] == mb);
    assert forall|i: nat| i < n implies #[trigger] code_of(mb, i) == mode_code(modes[i as int]) by {
        assert(code_of(digits_val(codes) as u8, i) == codes[i as int]);
    }
    assert(n > 0 ==> code_of(mb, 0) != MODE_ALIAS) by {
        if n > 0 && code_of(mb, 0) == MODE_ALIAS {
            assert(modes[0] is Alias);
        }
    }
    assert(!(exists|c: nat| c < n && code_of(mb, c) == MODE_RESERVED)) by {
        if exists|c: nat| c < n && code_of(mb, c) == MODE_RESERVED {
            let c = choose|c: nat| c < n && code_of(mb, c) == MODE_RESERVED;
            assert(code_of(mb, c) == mode_code(modes[c as int]));
        }
    }
    lemma_counts_match(modes, mb, n, n);
    let ac = alias_count(modes, n);
    let cc = constant_count(modes, n);
    lemma_counts_bounded(modes, n);
    // The alias byte.
    assert forall|c: int| 0 <= c < n && (#[trigger] modes[c]) is Alias implies target_of(modes[c]) < 4 by {
        assert(target_of(modes[c]) < c);
    }
    lemma_alias_targets(modes, n);
    let targets = alias_targets(modes, n);
    lemma_digits_read_back(targets);
    let ab: u8 = if ac > 0 {
        alias_byte_of(modes, n) as u8
    } else {
        0
    };
    let at: nat = if ac > 0 {
        2
    } else {
        1
    };
    if ac > 0 {
        assert(bytes.len() >= 2);
        assert(bytes[1] == alias_byte_of(modes, n) as u8);
    }
    // The constants.
    lemma_constants_at(modes, n);
    lemma_plan_bytes_len(channels, modes);
    assert forall|k: int| 0 <= k < cc implies bytes[at + k] == constants_of(modes, n)[k] by {
        assert(bytes[at + k] == plan_bytes(channels, modes)[at + k]);
    }
    // Every channel passes its checks and parses to its own mode.
    lemma_check_passes(bytes, modes, mb, ab, at, n, 0);
    assert forall|c: int| 0 <= c < 4 implies #[trigger] parse_modes(bytes, mb, ab, at, n)[c] == modes[c] by {
        if c < n {
            lemma_counts_match(modes, mb, n, c as nat);
            let code = code_of(mb, c as nat);
            assert(code == mode_code(modes[c]));
            if modes[c] is Alias {
                assert(code_of(digits_val(targets) as u8, alias_count(modes, c as nat))
                    == targets[alias_count(modes, c as nat) as int]);
            }
        }
    }
    assert(parse_modes(bytes, mb, ab, at, n) =~= modes);
}

proof fn lemma_check_passes(
    bytes: Seq<u8>,
    modes: Seq<ChannelMode>,
    mb: u8,
    ab: u8,
    at: nat,
    n: nat,
    c: nat,
)
    requires
        modes_wf(n as u8, modes),
        n <= 4,
        c <= n,
        forall|i: nat| i < n ==> #[trigger] code_of(mb, i) == mode_code(modes[i as int]),
        forall|i: int|
            0 <= i < n && (#[trigger] modes[i]) is Alias ==> code_of(ab, alias_count(modes, i as nat))
                == target_of(modes[i]),
        forall|i: int|
            0 <= i < n && (#[trigger] modes[i]) is Constant ==> at + constant_count(modes, i as nat)
                < bytes.len(),
    ensures
        check_channels(bytes, mb, ab, at, n, c) == None::<BrpError>,
    decreases n - c,
{
    if c < n {
        lemma_check_passes(bytes, modes, mb, ab, at, n, c + 1);
        lemma_counts_match(modes, mb, n, c);
        if modes[c as int] is Alias {
            let t = target_of(modes[c as int]);
            assert(code_of(mb, t as nat) == mode_code(modes[t as int]));
        }
    }
}

proof fn lemma_checks_pass(bytes: Seq<u8>, mb: u8, ab: u8, at: nat, n: nat, c0: nat)
    requires
        check_channels(bytes, mb, ab, at, n, c0) == None::<BrpError>,
    ensures
        forall|c: nat| c0 <= c < n ==> #[trigger] channel_error(bytes, mb, ab, at, c) == None::<
            BrpError,
        >,
    decreases n - c0,
{
    if c0 < n {
        lemma_checks_pass(bytes, mb, ab, at, n, c0 + 1);
    }
}

/// A plan the parser accepts could stand in a file: every alias points at an earlier coded
/// channel.
pub proof fn lemma_parsed_plan_wf(bytes: Seq<u8>, channels: u8)
    requires
        1 <= channels <= 4,
        parse_plan(bytes, channels) is Ok,
    ensures
        modes_wf(channels, parse_plan(bytes, channels).unwrap().0),
{
    let n = channels as nat;
    let mb = bytes[0];
    let ac = count_code(mb, MODE_ALIAS, n);
    let ab = if ac > 0 {
        bytes[1]
    } else {
        0u8
    };
    let at: nat = if ac > 0 {
        2
    } else {
        1
    };
    lemma_checks_pass(bytes, mb, ab, at, n, 0);
    let modes = parse_modes(bytes, mb, ab, at, n);
    assert forall|c: int|
        0 <= c < channels && (#[trigger] modes[c]) is Alias implies target_of(modes[c]) < c
        && modes[target_of(modes[c]) as int] == ChannelMode::Coded by {
        assert(channel_error(bytes, mb, ab, at, c as nat) == None::<BrpError>);
    }
}

proof fn lemma_count_code_le(b: u8, code: u8, c: nat)
    ensures
        count_code(b, code, c) <= c,
    decreases c,
{
    if c > 0 {
        lemma_count_code_le(b, code, (c - 1) as nat);
    }
}

/// A channel section is at most six bytes: modes, alias targets, and one constant per channel.
pub proof fn lemma_plan_sizes(bytes: Seq<u8>, channels: u8, modes: Seq<ChannelMode>)
    requires
        channels <= 4,
    ensures
        plan_bytes(channels, modes).len() <= 6,
        parse_plan(bytes, channels) matches Ok((_, used)) ==> used <= 6,
{
    lemma_plan_bytes_len(channels, modes);
    lemma_counts_bounded(modes, channels as nat);
    if bytes.len() > 0 {
        lemma_count_code_le(bytes[0], MODE_CONSTANT, channels as nat);
    }
}

proof fn lemma_alias_target_earlier(data: Seq<u8>, stride: nat, opts: ChannelOptions, c: nat, k: nat)
    ensures
        alias_target(data, stride, opts, c, k) matches Some(t) ==> k <= t < c && planned_mode(
            data,
            stride,
            opts,
            t,
        ) == ChannelMode::Coded,
    decreases c - k,
{
    if k < c {
        lemma_alias_target_earlier(data, stride, opts, c, k + 1);
    }
}

/// The plan stage 1 makes could stand in a file: every alias points at an earlier coded channel.
pub proof fn lemma_planned_modes_wf(data: Seq<u8>, channels: u8, opts: ChannelOptions)
    requires
        1 <= channels <= 4,
    ensures
        modes_wf(channels, planned_modes(data, channels, opts)),
{
    let modes = planned_modes(data, channels, opts);
    assert forall|c: int|
        0 <= c < channels && (#[trigger] modes[c]) is Alias implies target_of(modes[c]) < c
        && modes[target_of(modes[c]) as int] == ChannelMode::Coded by {
        lemma_alias_target_earlier(data, channels as nat, opts, c as nat, 0);
    }
}


proof fn lemma_alias_target_matches(data: Seq<u8>, stride: nat, opts: ChannelOptions, c: nat, k: nat)
    ensures
        alias_target(data, stride, opts, c, k) matches Some(t) ==> k <= t < c && planes_match(
            data,
            stride,
            t,
            c,
        ),
    decreases c - k,
{
    if k < c {
        lemma_alias_target_matches(data, stride, opts, c, k + 1);
    }
}

/// What a planned mode promises of the data it was planned from: a constant channel holds its
/// value at every sample, and an aliased channel repeats an earlier channel at every pixel.
pub proof fn lemma_modes_faithful(data: Seq<u8>, channels: u8, opts: ChannelOptions, i: int)
    requires
        1 <= channels <= 4,
        0 <= i < data.len(),
    ensures
        ({
            let stride = channels as int;
            let c = i % stride;
            let m = planned_modes(data, channels, opts)[c];
            &&& 0 <= c < stride
            &&& (m matches ChannelMode::Constant(v) ==> data[i] == v)
            &&& (m matches ChannelMode::Alias(t) ==> t < c && data[i] == data[i - c + t])
        }),
{
    let stride = channels as int;
    let c = i % stride;
    let t = i / stride;
    lemma_fundamental_div_mod(i, stride);
    lemma_mod_pos_bound(i, stride);
    lemma_div_pos_is_pos(i, stride);
    assert(i == c + t * stride) by (nonlinear_arith)
        requires
            i == stride * t + c,
    ;
    let tn = t as nat;
    let cn = c as nat;
    assert(plane_at(cn, stride as nat, tn) == i);
    lemma_alias_target_matches(data, stride as nat, opts, cn, 0);
    let m = planned_modes(data, channels, opts)[c];
    if let ChannelMode::Alias(a) = m {
        let k = alias_target(data, stride as nat, opts, cn, 0).unwrap();
        assert(a == k as u8);
        assert(plane_at(k, stride as nat, tn) < data.len());
        assert(data[plane_at(k, stride as nat, tn) as int] == data[plane_at(cn, stride as nat, tn) as int]);
    }
}

} // verus!
