//! Bit-level helpers: the rightmost zero bit and the binary reflected Gray code.

use vstd::prelude::*;

verus! {

use vstd::std_specs::bits::{u64_trailing_zeros, axiom_u64_trailing_zeros};
use vstd::bits::lemma_u64_shr_is_div;
use vstd::arithmetic::power2::{pow2, lemma_pow2_adds, lemma_pow2_pos};
use vstd::arithmetic::div_mod::lemma_div_denominator;

/// Number of consecutive one bits at the low end of `n`, i.e. the position of
/// the rightmost zero bit (64 when every bit is one).
pub open spec fn trailing_ones(n: u64) -> nat
    decreases n,
{
    if n % 2 == 0 {
        0
    } else {
        1 + trailing_ones(n / 2)
    }
}

/// Bit `k` of `n`.
pub open spec fn bit(n: u64, k: nat) -> bool {
    k < 64 && (n >> (k as u64)) & 1u64 == 1u64
}

/// A position `r` whose bits below are all one and which is itself zero (or 64)
/// is exactly `trailing_ones(n)`.
proof fn lemma_trailing_ones_unique(n: u64, r: nat)
    requires
        r <= 64,
        forall|k: nat| k < r ==> #[trigger] bit(n, k),
        r < 64 ==> !bit(n, r),
    ensures
        trailing_ones(n) == r,
    decreases n,
{
    assert((n >> 0u64) & 1u64 == n % 2) by (bit_vector);
    if n % 2 == 0 {
        if r > 0 {
            assert(bit(n, 0));
        }
    } else {
        if r == 0 {
            assert(!bit(n, 0));
        }
        let h = n / 2;
        assert(n / 2 == n >> 1u64) by (bit_vector);
        assert forall|k: nat| k < (r - 1) as nat implies #[trigger] bit(h, k) by {
            assert(bit(n, k + 1));
            let kk = k as u64;
            assert(kk < 63 ==> (n >> 1u64) >> kk == n >> (kk + 1)) by (bit_vector);
        }
        if r - 1 < 64 {
            let kk = (r - 1) as u64;
            assert(kk < 63 ==> (n >> 1u64) >> kk == n >> (kk + 1)) by (bit_vector);
            assert(((n >> 1u64) >> 63u64) & 1u64 == 0u64) by (bit_vector);
            if r < 64 {
                assert(!bit(n, r));
            }
        }
        lemma_trailing_ones_unique(h, (r - 1) as nat);
    }
}

/// `trailing_ones(n)` agrees with counting the trailing zeros of `!n`: the bits
/// below it are one, the bit at it (if any) is zero, and it is below 64 unless
/// every bit of `n` is one.
pub proof fn lemma_trailing_ones_bits(n: u64)
    ensures
        trailing_ones(n) == u64_trailing_zeros(!n),
        trailing_ones(n) <= 64,
        forall|k: nat| k < trailing_ones(n) ==> #[trigger] bit(n, k),
        trailing_ones(n) < 64 ==> !bit(n, trailing_ones(n)),
        n != u64::MAX ==> trailing_ones(n) < 64,
{
    let t = u64_trailing_zeros(!n);
    axiom_u64_trailing_zeros(!n);
    let tt = t as u64;
    assert forall|k: nat| k < t implies #[trigger] bit(n, k) by {
        let kk = k as u64;
        assert(((!n) >> kk) & 1u64 == 0u64);
        assert(((!n) >> kk) & 1u64 == 0u64 ==> (n >> kk) & 1u64 == 1u64) by (bit_vector)
            requires kk < 64;
    }
    if t < 64 {
        assert(((!n) >> tt) & 1u64 == 1u64 ==> (n >> tt) & 1u64 == 0u64) by (bit_vector)
            requires tt < 64;
    }
    lemma_trailing_ones_unique(n, t as nat);
    assert(n != u64::MAX ==> !n != 0u64) by (bit_vector);
}

/// Position of the rightmost zero bit of `n` (0-indexed); 64 when `n` has no
/// zero bit.
pub fn rightmost_zero(n: u64) -> (r: usize)
    ensures
        r == trailing_ones(n),
        r <= 64,
        forall|k: nat| k < r ==> #[trigger] bit(n, k),
        r < 64 ==> !bit(n, r as nat),
{
    let t = (!n).trailing_zeros();
    proof {
        lemma_trailing_ones_bits(n);
    }
    t as usize
}

/// Agreement of the bits from position `a` up implies agreement of the bits
/// from any higher position `c` up.
pub proof fn lemma_shr_agree(x: u64, y: u64, a: u64, c: u64)
    requires
        a <= c < 64,
        x >> a == y >> a,
    ensures
        x >> c == y >> c,
{
    lemma_u64_shr_is_div(x, a);
    lemma_u64_shr_is_div(y, a);
    lemma_u64_shr_is_div(x, c);
    lemma_u64_shr_is_div(y, c);
    let d = (c - a) as nat;
    lemma_pow2_adds(a as nat, d);
    lemma_pow2_pos(a as nat);
    lemma_pow2_pos(d);
    lemma_div_denominator(x as int, pow2(a as nat) as int, pow2(d) as int);
    lemma_div_denominator(y as int, pow2(a as nat) as int, pow2(d) as int);
}

/// The binary reflected Gray code of `t`.
pub open spec fn gray(t: u64) -> u64 {
    t ^ (t >> 1u64)
}

/// Consecutive Gray codes differ in exactly one bit: the position of the
/// rightmost zero bit of the smaller index.
pub proof fn lemma_gray_step(t: u64)
    requires
        t < u64::MAX,
    ensures
        trailing_ones(t) < 64,
        gray(t) ^ gray((t + 1) as u64) == 1u64 << (trailing_ones(t) as u64),
    decreases t,
{
    lemma_trailing_ones_bits(t);
    if t % 2 == 0 {
        assert(t % 2 == 0 && t < 0xffff_ffff_ffff_ffffu64 ==>
            (t ^ (t >> 1u64)) ^ (((t + 1) as u64) ^ (((t + 1) as u64) >> 1u64)) == 1u64 << 0u64) by (bit_vector);
    } else {
        let u = t / 2;
        assert(t / 2 == t >> 1u64) by (bit_vector);
        assert(u < u64::MAX);
        lemma_gray_step(u);
        let r = trailing_ones(u) as u64;
        assert(u < 0x8000_0000_0000_0000u64) by (bit_vector)
            requires u == t >> 1u64;
        lemma_trailing_ones_bits(u);
        if r == 63 {
            assert(bit(u, 63));
            assert(u < 0x8000_0000_0000_0000u64 ==> (u >> 63u64) & 1u64 == 0u64) by (bit_vector);
        }
        assert(r < 63);
        assert(
            (t ^ (t >> 1u64)) ^ (((t + 1) as u64) ^ (((t + 1) as u64) >> 1u64))
                == ((u ^ (u >> 1u64)) ^ (((u + 1) as u64) ^ (((u + 1) as u64) >> 1u64))) << 1u64
        ) by (bit_vector)
            requires
                t % 2 == 1,
                t < 0xffff_ffff_ffff_ffffu64,
                u == t >> 1u64;
        assert((1u64 << r) << 1u64 == 1u64 << ((r + 1) as u64)) by (bit_vector)
            requires r < 63;
    }
}

/// `v` is an odd multiple of `2^e`: `v = m * 2^e` with `m` odd.
pub open spec fn odd_multiple(v: u64, e: u64) -> bool {
    e < 64 && (v >> e) << e == v && (v >> e) & 1u64 == 1u64
}

/// Multiples of `2^e` are closed under XOR, and the parity of the quotient
/// is the XOR of the parities.
pub proof fn lemma_xor_multiples(a: u64, b: u64, e: u64)
    by (bit_vector)
    requires
        e < 64,
        (a >> e) << e == a,
        (b >> e) << e == b,
    ensures
        ((a ^ b) >> e) << e == a ^ b,
        (((a ^ b) >> e) & 1u64 == 1u64) == (((a >> e) & 1u64 == 1u64) != ((b >> e) & 1u64 == 1u64)),
{
}

/// A multiple of `2^f` is an even multiple of `2^e` for `e < f`.
pub proof fn lemma_multiple_of_higher_power(x: u64, e: u64, f: u64)
    by (bit_vector)
    requires
        e < f,
        f < 64,
        (x >> f) << f == x,
    ensures
        (x >> e) << e == x,
        (x >> e) & 1u64 == 0u64,
{
}

/// Shifting an odd multiple of `2^(e + s)` right by `s` gives an odd multiple
/// of `2^e`.
pub proof fn lemma_odd_multiple_shift(w: u64, e: u64, s: u64, f: u64)
    by (bit_vector)
    requires
        f == e + s,
        f < 64,
        (w >> f) << f == w,
        (w >> f) & 1u64 == 1u64,
    ensures
        ((w >> s) >> e) << e == w >> s,
        ((w >> s) >> e) & 1u64 == 1u64,
{
}

/// A small odd `m` shifted left by `e <= 51` is an odd multiple of `2^e`.
pub proof fn lemma_small_odd_shifted(m: u64, e: u64)
    by (bit_vector)
    requires
        m % 2 == 1,
        m < 32,
        e <= 51,
    ensures
        ((m << e) >> e) << e == m << e,
        ((m << e) >> e) & 1u64 == 1u64,
{
}

} // verus!
