//! The mathematical model of a bitstream: sequences of bits, the numbers they spell, and the bytes
//! that carry them. Every bit-level contract in the crate is stated over these.

use vstd::arithmetic::div_mod::*;
use vstd::arithmetic::mul::*;
use vstd::arithmetic::power2::*;
use vstd::prelude::*;

verus! {

/// The low `n` bits of `v`, most significant first.
pub open spec fn bits_of(v: nat, n: nat) -> Seq<bool>
    decreases n,
{
    if n == 0 {
        Seq::empty()
    } else {
        bits_of(v / 2, (n - 1) as nat).push(v % 2 == 1)
    }
}

pub open spec fn bit_value(b: bool) -> nat {
    if b {
        1
    } else {
        0
    }
}

/// The number a sequence of bits spells, most significant first.
pub open spec fn bits_val(s: Seq<bool>) -> nat
    decreases s.len(),
{
    if s.len() == 0 {
        0
    } else {
        2 * bits_val(s.drop_last()) + bit_value(s.last())
    }
}

/// `n` zero bits.
pub open spec fn zeros(n: nat) -> Seq<bool> {
    Seq::new(n, |i: int| false)
}

/// `n` one bits.
pub open spec fn ones(n: nat) -> Seq<bool> {
    Seq::new(n, |i: int| true)
}

/// The bits of a byte buffer, each byte most significant bit first.
pub open spec fn byte_bits(b: Seq<u8>) -> Seq<bool>
    decreases b.len(),
{
    if b.len() == 0 {
        Seq::empty()
    } else {
        byte_bits(b.drop_last()) + bits_of(b.last() as nat, 8)
    }
}

/// Zero bits that complete the last byte of a stream of `n` bits.
pub open spec fn pad_len(n: nat) -> nat {
    ((8 - n % 8) % 8) as nat
}

/// A bit sequence extended with zeros to a whole number of bytes.
pub open spec fn padded(s: Seq<bool>) -> Seq<bool> {
    s + zeros(pad_len(s.len()))
}

pub proof fn lemma_bits_of_len(v: nat, n: nat)
    ensures
        bits_of(v, n).len() == n,
    decreases n,
{
    if n > 0 {
        lemma_bits_of_len(v / 2, (n - 1) as nat);
    }
}

pub proof fn lemma_bits_val_of(v: nat, n: nat)
    ensures
        bits_val(bits_of(v, n)) == v % pow2(n),
    decreases n,
{
    lemma2_to64();
    if n == 0 {
        assert(bits_of(v, n) =~= Seq::empty());
    } else {
        lemma_pow2_unfold(n);
        let s = bits_of(v, n);
        lemma_bits_val_of(v / 2, (n - 1) as nat);
        assert(s.drop_last() =~= bits_of(v / 2, (n - 1) as nat));
        lemma_pow2_pos((n - 1) as nat);
        lemma_breakdown(v as int, 2, pow2((n - 1) as nat) as int);
    }
}

pub proof fn lemma_bits_val_bound(s: Seq<bool>)
    ensures
        bits_val(s) < pow2(s.len()),
    decreases s.len(),
{
    lemma2_to64();
    if s.len() > 0 {
        lemma_bits_val_bound(s.drop_last());
        lemma_pow2_unfold(s.len());
    }
}

pub proof fn lemma_bits_of_bits_val(s: Seq<bool>)
    ensures
        bits_of(bits_val(s), s.len()) == s,
    decreases s.len(),
{
    if s.len() > 0 {
        let d = s.drop_last();
        lemma_bits_of_bits_val(d);
        let v = bits_val(s);
        assert(v / 2 == bits_val(d));
        assert(v % 2 == bit_value(s.last()));
        assert(bits_of(v, s.len()) =~= d.push(s.last()));
        assert(d.push(s.last()) =~= s);
    } else {
        assert(bits_of(bits_val(s), 0) =~= s);
    }
}

/// Two bit sequences of one length that spell one number are the same sequence.
pub proof fn lemma_bits_val_injective(a: Seq<bool>, b: Seq<bool>)
    requires
        a.len() == b.len(),
        bits_val(a) == bits_val(b),
    ensures
        a == b,
{
    lemma_bits_of_bits_val(a);
    lemma_bits_of_bits_val(b);
}

pub proof fn lemma_bits_of_mod(v: nat, n: nat)
    ensures
        bits_of(v, n) == bits_of(v % pow2(n), n),
{
    lemma_pow2_pos(n);
    lemma_bits_of_len(v, n);
    lemma_bits_of_len(v % pow2(n), n);
    lemma_bits_val_of(v, n);
    lemma_bits_val_of(v % pow2(n), n);
    lemma_mod_mod(v as int, pow2(n) as int, 1);
    lemma_bits_val_injective(bits_of(v, n), bits_of(v % pow2(n), n));
}

pub proof fn lemma_bits_val_append(a: Seq<bool>, b: Seq<bool>)
    ensures
        bits_val(a + b) == bits_val(a) * pow2(b.len()) + bits_val(b),
    decreases b.len(),
{
    lemma2_to64();
    if b.len() == 0 {
        assert(a + b =~= a);
    } else {
        lemma_pow2_unfold(b.len());
        let bd = b.drop_last();
        lemma_bits_val_append(a, bd);
        assert((a + b).drop_last() =~= a + bd);
        assert((a + b).last() == b.last());
        let p = pow2(bd.len());
        assert(pow2(b.len()) == 2 * p);
        assert(2 * (bits_val(a) * p) == bits_val(a) * (2 * p)) by (nonlinear_arith);
    }
}

/// Writing `hi` above `lo` is writing their combined value.
pub proof fn lemma_bits_of_concat(hi: nat, lo: nat, n: nat, m: nat)
    requires
        lo < pow2(m),
    ensures
        bits_of(hi * pow2(m) + lo, n + m) == bits_of(hi, n) + bits_of(lo, m),
{
    let p = pow2(m);
    let q = pow2(n);
    lemma_pow2_pos(m);
    lemma_pow2_pos(n);
    let x = hi * p + lo;
    let rhs = bits_of(hi, n) + bits_of(lo, m);
    lemma_bits_of_len(hi, n);
    lemma_bits_of_len(lo, m);
    lemma_bits_val_append(bits_of(hi, n), bits_of(lo, m));
    lemma_bits_val_of(hi, n);
    lemma_bits_val_of(lo, m);
    lemma_small_mod(lo, p);
    assert(bits_val(rhs) == (hi % q) * p + lo);
    lemma_fundamental_div_mod(x as int, p as int);
    lemma_mul_is_commutative(hi as int, p as int);
    lemma_div_multiples_vanish_fancy(hi as int, lo as int, p as int);
    lemma_mod_multiples_vanish(hi as int, lo as int, p as int);
    assert(x / p == hi);
    assert(x % p == lo);
    lemma_breakdown(x as int, p as int, q as int);
    lemma_pow2_adds(n, m);
    assert(p * q == pow2(n + m)) by {
        lemma_mul_is_commutative(p as int, q as int);
    }
    assert(x % pow2(n + m) == p * (hi % q) + lo);
    lemma_mul_is_commutative(p as int, (hi % q) as int);
    lemma_bits_of_bits_val(rhs);
    lemma_bits_of_mod(x, n + m);
}

/// The top `n` and the bottom `m` of `n + m` bits.
pub proof fn lemma_bits_of_split(v: nat, n: nat, m: nat)
    ensures
        bits_of(v, n + m) == bits_of(v / pow2(m), n) + bits_of(v % pow2(m), m),
{
    lemma_pow2_pos(m);
    lemma_fundamental_div_mod(v as int, pow2(m) as int);
    lemma_mod_bound(v as int, pow2(m) as int);
    lemma_mul_is_commutative((v / pow2(m)) as int, pow2(m) as int);
    lemma_bits_of_concat(v / pow2(m), v % pow2(m), n, m);
}

/// A window of bits `a..b` out of `n`.
pub proof fn lemma_bits_of_window(v: nat, n: nat, a: nat, b: nat)
    requires
        a <= b <= n,
    ensures
        bits_of(v, n).subrange(a as int, b as int) == bits_of(
            v / pow2((n - b) as nat),
            (b - a) as nat,
        ),
{
    let low = (n - b) as nat;
    let w = v / pow2(low);
    lemma_bits_of_split(v, b, low);
    assert(b + low == n);
    lemma_bits_of_len(w, b);
    lemma_bits_of_len(v % pow2(low), low);
    let top = bits_of(w, b);
    assert(bits_of(v, n).subrange(a as int, b as int) =~= top.subrange(a as int, b as int));
    lemma_bits_of_split(w, a, (b - a) as nat);
    assert(a + (b - a) == b);
    lemma_bits_of_len(w / pow2((b - a) as nat), a);
    lemma_bits_of_len(w % pow2((b - a) as nat), (b - a) as nat);
    assert(top.subrange(a as int, b as int) =~= bits_of(
        w % pow2((b - a) as nat),
        (b - a) as nat,
    ));
    lemma_bits_of_mod(w, (b - a) as nat);
}

pub proof fn lemma_bits_of_zero(n: nat)
    ensures
        bits_of(0, n) == zeros(n),
    decreases n,
{
    if n > 0 {
        lemma_bits_of_zero((n - 1) as nat);
        assert(bits_of(0, n) =~= zeros(n));
    } else {
        assert(bits_of(0, n) =~= zeros(n));
    }
}

/// A sequence spells zero exactly when every bit in it is clear.
pub proof fn lemma_bits_val_zero(s: Seq<bool>)
    ensures
        bits_val(s) == 0 <==> (forall|i: int| 0 <= i < s.len() ==> !s[i]),
    decreases s.len(),
{
    if s.len() > 0 {
        lemma_bits_val_zero(s.drop_last());
        if bits_val(s) == 0 {
            assert forall|i: int| 0 <= i < s.len() implies !s[i] by {
                if i < s.len() - 1 {
                    assert(s[i] == s.drop_last()[i]);
                }
            }
        }
        if forall|i: int| 0 <= i < s.len() ==> !s[i] {
            assert forall|i: int| 0 <= i < s.drop_last().len() implies !s.drop_last()[i] by {
                assert(s.drop_last()[i] == s[i]);
            }
            assert(!s[s.len() - 1]);
        }
    }
}

pub proof fn lemma_byte_bits_len(b: Seq<u8>)
    ensures
        byte_bits(b).len() == 8 * b.len(),
    decreases b.len(),
{
    if b.len() > 0 {
        lemma_byte_bits_len(b.drop_last());
        lemma_bits_of_len(b.last() as nat, 8);
    }
}

pub proof fn lemma_byte_bits_push(b: Seq<u8>, x: u8)
    ensures
        byte_bits(b.push(x)) == byte_bits(b) + bits_of(x as nat, 8),
{
    assert(b.push(x).drop_last() =~= b);
}

pub proof fn lemma_byte_bits_append(a: Seq<u8>, b: Seq<u8>)
    ensures
        byte_bits(a + b) == byte_bits(a) + byte_bits(b),
    decreases b.len(),
{
    if b.len() == 0 {
        assert(a + b =~= a);
        assert(byte_bits(a) + byte_bits(b) =~= byte_bits(a));
    } else {
        lemma_byte_bits_append(a, b.drop_last());
        assert((a + b).drop_last() =~= a + b.drop_last());
        assert((a + b).last() == b.last());
        assert(byte_bits(a + b) =~= byte_bits(a) + byte_bits(b));
    }
}

/// Bit `i` of a byte buffer is bit `i % 8` of byte `i / 8`.
pub proof fn lemma_byte_bits_index(b: Seq<u8>, i: int)
    requires
        0 <= i < 8 * b.len(),
    ensures
        byte_bits(b).len() == 8 * b.len(),
        byte_bits(b)[i] == bits_of(b[i / 8] as nat, 8)[i % 8],
    decreases b.len(),
{
    lemma_byte_bits_len(b);
    let d = b.drop_last();
    lemma_byte_bits_len(d);
    lemma_bits_of_len(b.last() as nat, 8);
    if i < 8 * d.len() {
        lemma_byte_bits_index(d, i);
    } else {
        assert(i / 8 == d.len()) by (nonlinear_arith)
            requires
                8 * d.len() <= i < 8 * (d.len() + 1),
        ;
        assert(i % 8 == i - 8 * d.len()) by (nonlinear_arith)
            requires
                8 * d.len() <= i < 8 * (d.len() + 1),
        ;
    }
}

/// Byte buffers with the same bits are the same buffer.
pub proof fn lemma_byte_bits_injective(a: Seq<u8>, b: Seq<u8>)
    requires
        byte_bits(a) == byte_bits(b),
    ensures
        a == b,
{
    lemma_byte_bits_len(a);
    lemma_byte_bits_len(b);
    assert(a.len() == b.len());
    assert forall|i: int| 0 <= i < a.len() implies a[i] == b[i] by {
        lemma_byte_bits_within(a, (8 * i) as nat, 8);
        lemma_byte_bits_within(b, (8 * i) as nat, 8);
        assert((8 * i) / 8 == i && (8 * i) % 8 == 0) by (nonlinear_arith)
            requires
                0 <= i,
        ;
        lemma_bits_of_len(a[i] as nat, 8);
        lemma_bits_of_len(b[i] as nat, 8);
        assert(bits_of(a[i] as nat, 8).subrange(0, 8) =~= bits_of(a[i] as nat, 8));
        assert(bits_of(b[i] as nat, 8).subrange(0, 8) =~= bits_of(b[i] as nat, 8));
        lemma_bits_val_of(a[i] as nat, 8);
        lemma_bits_val_of(b[i] as nat, 8);
        lemma2_to64();
    }
    assert(a =~= b);
}

/// A run of bits that stays inside one byte.
pub proof fn lemma_byte_bits_within(b: Seq<u8>, pos: nat, t: nat)
    requires
        pos + t <= 8 * b.len(),
        pos % 8 + t <= 8,
    ensures
        byte_bits(b).len() == 8 * b.len(),
        byte_bits(b).subrange(pos as int, (pos + t) as int) == bits_of(
            b[(pos / 8) as int] as nat,
            8,
        ).subrange((pos % 8) as int, (pos % 8 + t) as int),
{
    lemma_byte_bits_len(b);
    lemma_bits_of_len(b[(pos / 8) as int] as nat, 8);
    let lhs = byte_bits(b).subrange(pos as int, (pos + t) as int);
    let rhs = bits_of(b[(pos / 8) as int] as nat, 8).subrange(
        (pos % 8) as int,
        (pos % 8 + t) as int,
    );
    assert forall|j: int| 0 <= j < t implies #[trigger] lhs[j] == rhs[j] by {
        lemma_byte_bits_index(b, pos + j);
        assert((pos + j) / 8 == pos / 8 && (pos + j) % 8 == pos % 8 + j) by (nonlinear_arith)
            requires
                0 <= j,
                pos % 8 + j < 8,
        ;
    }
    assert(lhs =~= rhs);
}

} // verus!
