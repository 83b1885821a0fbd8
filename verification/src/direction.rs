//! Sobol direction numbers: dimension 1 is the Van der Corput sequence in base
//! 2, dimensions 2 to 8 follow the Joe & Kuo (2010) primitive polynomials and
//! initial direction numbers.

use vstd::prelude::*;

verus! {

use vstd::arithmetic::power2::{pow2, lemma2_to64};
use crate::bits::{
    odd_multiple, lemma_xor_multiples, lemma_multiple_of_higher_power, lemma_odd_multiple_shift,
    lemma_small_odd_shifted,
};

/// Number of bits of a Sobol coordinate (the fixed-point denominator is `2^52`).
pub const SOBOL_BITS: usize = 52;

/// Largest dimension the embedded direction-number table supports.
pub const MAX_SOBOL_DIM: usize = 8;

/// `2^52`, one past the largest Sobol coordinate.
pub open spec fn sobol_scale() -> int {
    0x10_0000_0000_0000
}

/// Degree `s` of the primitive polynomial of table row `r` (dimension `r + 2`).
pub open spec fn joe_kuo_degree_spec(r: int) -> u32 {
    if r == 0 { 1 }
    else if r == 1 { 2 }
    else if r == 2 { 3 }
    else if r == 3 { 3 }
    else if r == 4 { 4 }
    else if r == 5 { 4 }
    else if r == 6 { 5 }
    else { 0 }
}

/// Interior coefficients `a` of the primitive polynomial of table row `r`
/// (leading and constant terms excluded).
pub open spec fn joe_kuo_coeffs_spec(r: int) -> u32 {
    if r == 0 { 0 }
    else if r == 1 { 1 }
    else if r == 2 { 1 }
    else if r == 3 { 2 }
    else if r == 4 { 1 }
    else if r == 5 { 4 }
    else if r == 6 { 2 }
    else { 0 }
}

/// Initial direction number `m_{i+1}` of table row `r`.
pub open spec fn joe_kuo_initial_spec(r: int, i: int) -> u32 {
    if r == 3 && i == 1 { 3 }
    else if r == 4 && (i == 2 || i == 3) { 3 }
    else if r == 5 && i == 1 { 3 }
    else if r == 5 && i == 2 { 5 }
    else if r == 5 && i == 3 { 13 }
    else if r == 6 && (i == 2 || i == 3) { 5 }
    else if r == 6 && i == 4 { 17 }
    else { 1 }
}

/// Sum of two polynomials over GF(2), each given by its coefficient bits
/// (bit `k` is the coefficient of `x^k`).
pub open spec fn gf2_add(p: nat, q: nat) -> nat
    decreases p + q,
{
    if p == 0 && q == 0 {
        0
    } else {
        (p + q) % 2 + 2 * gf2_add(p / 2, q / 2)
    }
}

/// `x * u` reduced modulo the degree-`s` polynomial `poly` (with `u` of degree
/// below `s`).
pub open spec fn gf2_mulx_mod(u: nat, poly: nat, s: nat) -> nat {
    if 2 * u >= pow2(s) {
        gf2_add(2 * u, poly)
    } else {
        2 * u
    }
}

/// `x^k` reduced modulo the degree-`s` polynomial `poly`.
pub open spec fn gf2_xpow_mod(poly: nat, s: nat, k: nat) -> nat
    decreases k,
{
    if k == 0 {
        1
    } else {
        gf2_mulx_mod(gf2_xpow_mod(poly, s, (k - 1) as nat), poly, s)
    }
}

/// The polynomial `x^s + a_1 x^(s-1) + ... + a_(s-1) x + 1` over GF(2) whose
/// interior coefficients are the bits of `a` (the most significant bit is the
/// coefficient of `x^(s-1)`).
pub open spec fn gf2_poly(s: nat, a: nat) -> nat {
    pow2(s) + 2 * a + 1
}

/// `gf2_poly(s, a)` is a primitive polynomial of degree `s`: `x` has
/// multiplicative order exactly `2^s - 1` modulo it.
pub open spec fn is_primitive(s: nat, a: nat) -> bool {
    let p = gf2_poly(s, a);
    let n = (pow2(s) - 1) as nat;
    &&& s >= 1
    &&& a < pow2((s - 1) as nat)
    &&& gf2_xpow_mod(p, s, n) == 1
    &&& forall|k: nat| 1 <= k < n ==> #[trigger] gf2_xpow_mod(p, s, k) != 1
}

/// Polynomial `(s1, a1)` comes before `(s2, a2)`: lower degree first, then
/// smaller interior coefficients.
pub open spec fn poly_before(s1: nat, a1: nat, s2: nat, a2: nat) -> bool {
    s1 < s2 || (s1 == s2 && a1 < a2)
}

proof fn lemma_primitive_1_0()
    ensures
        is_primitive(1, 0),
{
    reveal_with_fuel(gf2_add, 8);
    lemma2_to64();
    assert(gf2_xpow_mod(3, 1, 0) == 1);
    assert(gf2_xpow_mod(3, 1, 1) == 1);
}

proof fn lemma_primitive_2_1()
    ensures
        is_primitive(2, 1),
{
    reveal_with_fuel(gf2_add, 8);
    lemma2_to64();
    assert(gf2_xpow_mod(7, 2, 0) == 1);
    assert(gf2_xpow_mod(7, 2, 1) == 2);
    assert(gf2_xpow_mod(7, 2, 2) == 3);
    assert(gf2_xpow_mod(7, 2, 3) == 1);
    assert forall|k: nat| 1 <= k < 3 implies #[trigger] gf2_xpow_mod(7, 2, k) != 1 by {
        if k == 1 {} else if k == 2 {}
    }
}

proof fn lemma_primitive_3_1()
    ensures
        is_primitive(3, 1),
{
    reveal_with_fuel(gf2_add, 8);
    lemma2_to64();
    assert(gf2_xpow_mod(11, 3, 0) == 1);
    assert(gf2_xpow_mod(11, 3, 1) == 2);
    assert(gf2_xpow_mod(11, 3, 2) == 4);
    assert(gf2_xpow_mod(11, 3, 3) == 3);
    assert(gf2_xpow_mod(11, 3, 4) == 6);
    assert(gf2_xpow_mod(11, 3, 5) == 7);
    assert(gf2_xpow_mod(11, 3, 6) == 5);
    assert(gf2_xpow_mod(11, 3, 7) == 1);
    assert forall|k: nat| 1 <= k < 7 implies #[trigger] gf2_xpow_mod(11, 3, k) != 1 by {
        if k == 1 {} else if k == 2 {} else if k == 3 {} else if k == 4 {} else if k == 5 {} else if k == 6 {}
    }
}

proof fn lemma_primitive_3_2()
    ensures
        is_primitive(3, 2),
{
    reveal_with_fuel(gf2_add, 8);
    lemma2_to64();
    assert(gf2_xpow_mod(13, 3, 0) == 1);
    assert(gf2_xpow_mod(13, 3, 1) == 2);
    assert(gf2_xpow_mod(13, 3, 2) == 4);
    assert(gf2_xpow_mod(13, 3, 3) == 5);
    assert(gf2_xpow_mod(13, 3, 4) == 7);
    assert(gf2_xpow_mod(13, 3, 5) == 3);
    assert(gf2_xpow_mod(13, 3, 6) == 6);
    assert(gf2_xpow_mod(13, 3, 7) == 1);
    assert forall|k: nat| 1 <= k < 7 implies #[trigger] gf2_xpow_mod(13, 3, k) != 1 by {
        if k == 1 {} else if k == 2 {} else if k == 3 {} else if k == 4 {} else if k == 5 {} else if k == 6 {}
    }
}

proof fn lemma_primitive_4_1()
    ensures
        is_primitive(4, 1),
{
    reveal_with_fuel(gf2_add, 8);
    lemma2_to64();
    assert(gf2_xpow_mod(19, 4, 0) == 1);
    assert(gf2_xpow_mod(19, 4, 1) == 2);
    assert(gf2_xpow_mod(19, 4, 2) == 4);
    assert(gf2_xpow_mod(19, 4, 3) == 8);
    assert(gf2_xpow_mod(19, 4, 4) == 3);
    assert(gf2_xpow_mod(19, 4, 5) == 6);
    assert(gf2_xpow_mod(19, 4, 6) == 12);
    assert(gf2_xpow_mod(19, 4, 7) == 11);
    assert(gf2_xpow_mod(19, 4, 8) == 5);
    assert(gf2_xpow_mod(19, 4, 9) == 10);
    assert(gf2_xpow_mod(19, 4, 10) == 7);
    assert(gf2_xpow_mod(19, 4, 11) == 14);
    assert(gf2_xpow_mod(19, 4, 12) == 15);
    assert(gf2_xpow_mod(19, 4, 13) == 13);
    assert(gf2_xpow_mod(19, 4, 14) == 9);
    assert(gf2_xpow_mod(19, 4, 15) == 1);
    assert forall|k: nat| 1 <= k < 15 implies #[trigger] gf2_xpow_mod(19, 4, k) != 1 by {
        if k == 1 {} else if k == 2 {} else if k == 3 {} else if k == 4 {} else if k == 5 {} else if k == 6 {} else if k == 7 {} else if k == 8 {} else if k == 9 {} else if k == 10 {} else if k == 11 {} else if k == 12 {} else if k == 13 {} else if k == 14 {}
    }
}

proof fn lemma_primitive_4_4()
    ensures
        is_primitive(4, 4),
{
    reveal_with_fuel(gf2_add, 8);
    lemma2_to64();
    assert(gf2_xpow_mod(25, 4, 0) == 1);
    assert(gf2_xpow_mod(25, 4, 1) == 2);
    assert(gf2_xpow_mod(25, 4, 2) == 4);
    assert(gf2_xpow_mod(25, 4, 3) == 8);
    assert(gf2_xpow_mod(25, 4, 4) == 9);
    assert(gf2_xpow_mod(25, 4, 5) == 11);
    assert(gf2_xpow_mod(25, 4, 6) == 15);
    assert(gf2_xpow_mod(25, 4, 7) == 7);
    assert(gf2_xpow_mod(25, 4, 8) == 14);
    assert(gf2_xpow_mod(25, 4, 9) == 5);
    assert(gf2_xpow_mod(25, 4, 10) == 10);
    assert(gf2_xpow_mod(25, 4, 11) == 13);
    assert(gf2_xpow_mod(25, 4, 12) == 3);
    assert(gf2_xpow_mod(25, 4, 13) == 6);
    assert(gf2_xpow_mod(25, 4, 14) == 12);
    assert(gf2_xpow_mod(25, 4, 15) == 1);
    assert forall|k: nat| 1 <= k < 15 implies #[trigger] gf2_xpow_mod(25, 4, k) != 1 by {
        if k == 1 {} else if k == 2 {} else if k == 3 {} else if k == 4 {} else if k == 5 {} else if k == 6 {} else if k == 7 {} else if k == 8 {} else if k == 9 {} else if k == 10 {} else if k == 11 {} else if k == 12 {} else if k == 13 {} else if k == 14 {}
    }
}

proof fn lemma_primitive_5_2()
    ensures
        is_primitive(5, 2),
{
    reveal_with_fuel(gf2_add, 8);
    lemma2_to64();
    assert(gf2_xpow_mod(37, 5, 0) == 1);
    assert(gf2_xpow_mod(37, 5, 1) == 2);
    assert(gf2_xpow_mod(37, 5, 2) == 4);
    assert(gf2_xpow_mod(37, 5, 3) == 8);
    assert(gf2_xpow_mod(37, 5, 4) == 16);
    assert(gf2_xpow_mod(37, 5, 5) == 5);
    assert(gf2_xpow_mod(37, 5, 6) == 10);
    assert(gf2_xpow_mod(37, 5, 7) == 20);
    assert(gf2_xpow_mod(37, 5, 8) == 13);
    assert(gf2_xpow_mod(37, 5, 9) == 26);
    assert(gf2_xpow_mod(37, 5, 10) == 17);
    assert(gf2_xpow_mod(37, 5, 11) == 7);
    assert(gf2_xpow_mod(37, 5, 12) == 14);
    assert(gf2_xpow_mod(37, 5, 13) == 28);
    assert(gf2_xpow_mod(37, 5, 14) == 29);
    assert(gf2_xpow_mod(37, 5, 15) == 31);
    assert(gf2_xpow_mod(37, 5, 16) == 27);
    assert(gf2_xpow_mod(37, 5, 17) == 19);
    assert(gf2_xpow_mod(37, 5, 18) == 3);
    assert(gf2_xpow_mod(37, 5, 19) == 6);
    assert(gf2_xpow_mod(37, 5, 20) == 12);
    assert(gf2_xpow_mod(37, 5, 21) == 24);
    assert(gf2_xpow_mod(37, 5, 22) == 21);
    assert(gf2_xpow_mod(37, 5, 23) == 15);
    assert(gf2_xpow_mod(37, 5, 24) == 30);
    assert(gf2_xpow_mod(37, 5, 25) == 25);
    assert(gf2_xpow_mod(37, 5, 26) == 23);
    assert(gf2_xpow_mod(37, 5, 27) == 11);
    assert(gf2_xpow_mod(37, 5, 28) == 22);
    assert(gf2_xpow_mod(37, 5, 29) == 9);
    assert(gf2_xpow_mod(37, 5, 30) == 18);
    assert(gf2_xpow_mod(37, 5, 31) == 1);
    assert forall|k: nat| 1 <= k < 31 implies #[trigger] gf2_xpow_mod(37, 5, k) != 1 by {
        if k == 1 {} else if k == 2 {} else if k == 3 {} else if k == 4 {} else if k == 5 {} else if k == 6 {} else if k == 7 {} else if k == 8 {} else if k == 9 {} else if k == 10 {} else if k == 11 {} else if k == 12 {} else if k == 13 {} else if k == 14 {} else if k == 15 {} else if k == 16 {} else if k == 17 {} else if k == 18 {} else if k == 19 {} else if k == 20 {} else if k == 21 {} else if k == 22 {} else if k == 23 {} else if k == 24 {} else if k == 25 {} else if k == 26 {} else if k == 27 {} else if k == 28 {} else if k == 29 {} else if k == 30 {}
    }
}

proof fn lemma_not_primitive_2_0()
    ensures
        !is_primitive(2, 0),
{
    reveal_with_fuel(gf2_add, 8);
    lemma2_to64();
    assert(gf2_xpow_mod(5, 2, 0) == 1);
    assert(gf2_xpow_mod(5, 2, 1) == 2);
    assert(gf2_xpow_mod(5, 2, 2) == 1);
    assert(1 <= 2 < 3);
}

proof fn lemma_not_primitive_3_0()
    ensures
        !is_primitive(3, 0),
{
    reveal_with_fuel(gf2_add, 8);
    lemma2_to64();
    assert(gf2_xpow_mod(9, 3, 0) == 1);
    assert(gf2_xpow_mod(9, 3, 1) == 2);
    assert(gf2_xpow_mod(9, 3, 2) == 4);
    assert(gf2_xpow_mod(9, 3, 3) == 1);
    assert(1 <= 3 < 7);
}

proof fn lemma_not_primitive_3_3()
    ensures
        !is_primitive(3, 3),
{
    reveal_with_fuel(gf2_add, 8);
    lemma2_to64();
    assert(gf2_xpow_mod(15, 3, 0) == 1);
    assert(gf2_xpow_mod(15, 3, 1) == 2);
    assert(gf2_xpow_mod(15, 3, 2) == 4);
    assert(gf2_xpow_mod(15, 3, 3) == 7);
    assert(gf2_xpow_mod(15, 3, 4) == 1);
    assert(1 <= 4 < 7);
}

proof fn lemma_not_primitive_4_0()
    ensures
        !is_primitive(4, 0),
{
    reveal_with_fuel(gf2_add, 8);
    lemma2_to64();
    assert(gf2_xpow_mod(17, 4, 0) == 1);
    assert(gf2_xpow_mod(17, 4, 1) == 2);
    assert(gf2_xpow_mod(17, 4, 2) == 4);
    assert(gf2_xpow_mod(17, 4, 3) == 8);
    assert(gf2_xpow_mod(17, 4, 4) == 1);
    assert(1 <= 4 < 15);
}

proof fn lemma_not_primitive_4_2()
    ensures
        !is_primitive(4, 2),
{
    reveal_with_fuel(gf2_add, 8);
    lemma2_to64();
    assert(gf2_xpow_mod(21, 4, 0) == 1);
    assert(gf2_xpow_mod(21, 4, 1) == 2);
    assert(gf2_xpow_mod(21, 4, 2) == 4);
    assert(gf2_xpow_mod(21, 4, 3) == 8);
    assert(gf2_xpow_mod(21, 4, 4) == 5);
    assert(gf2_xpow_mod(21, 4, 5) == 10);
    assert(gf2_xpow_mod(21, 4, 6) == 1);
    assert(1 <= 6 < 15);
}

proof fn lemma_not_primitive_4_3()
    ensures
        !is_primitive(4, 3),
{
    reveal_with_fuel(gf2_add, 8);
    lemma2_to64();
    assert(gf2_xpow_mod(23, 4, 0) == 1);
    assert(gf2_xpow_mod(23, 4, 1) == 2);
    assert(gf2_xpow_mod(23, 4, 2) == 4);
    assert(gf2_xpow_mod(23, 4, 3) == 8);
    assert(gf2_xpow_mod(23, 4, 4) == 7);
    assert(gf2_xpow_mod(23, 4, 5) == 14);
    assert(gf2_xpow_mod(23, 4, 6) == 11);
    assert(gf2_xpow_mod(23, 4, 7) == 1);
    assert(1 <= 7 < 15);
}

proof fn lemma_not_primitive_4_5()
    ensures
        !is_primitive(4, 5),
{
    reveal_with_fuel(gf2_add, 8);
    lemma2_to64();
    assert(gf2_xpow_mod(27, 4, 0) == 1);
    assert(gf2_xpow_mod(27, 4, 1) == 2);
    assert(gf2_xpow_mod(27, 4, 2) == 4);
    assert(gf2_xpow_mod(27, 4, 3) == 8);
    assert(gf2_xpow_mod(27, 4, 4) == 11);
    assert(gf2_xpow_mod(27, 4, 5) == 13);
    assert(gf2_xpow_mod(27, 4, 6) == 1);
    assert(1 <= 6 < 15);
}

proof fn lemma_not_primitive_4_6()
    ensures
        !is_primitive(4, 6),
{
    reveal_with_fuel(gf2_add, 8);
    lemma2_to64();
    assert(gf2_xpow_mod(29, 4, 0) == 1);
    assert(gf2_xpow_mod(29, 4, 1) == 2);
    assert(gf2_xpow_mod(29, 4, 2) == 4);
    assert(gf2_xpow_mod(29, 4, 3) == 8);
    assert(gf2_xpow_mod(29, 4, 4) == 13);
    assert(gf2_xpow_mod(29, 4, 5) == 7);
    assert(gf2_xpow_mod(29, 4, 6) == 14);
    assert(gf2_xpow_mod(29, 4, 7) == 1);
    assert(1 <= 7 < 15);
}

proof fn lemma_not_primitive_4_7()
    ensures
        !is_primitive(4, 7),
{
    reveal_with_fuel(gf2_add, 8);
    lemma2_to64();
    assert(gf2_xpow_mod(31, 4, 0) == 1);
    assert(gf2_xpow_mod(31, 4, 1) == 2);
    assert(gf2_xpow_mod(31, 4, 2) == 4);
    assert(gf2_xpow_mod(31, 4, 3) == 8);
    assert(gf2_xpow_mod(31, 4, 4) == 15);
    assert(gf2_xpow_mod(31, 4, 5) == 1);
    assert(1 <= 5 < 15);
}

proof fn lemma_not_primitive_5_0()
    ensures
        !is_primitive(5, 0),
{
    reveal_with_fuel(gf2_add, 8);
    lemma2_to64();
    assert(gf2_xpow_mod(33, 5, 0) == 1);
    assert(gf2_xpow_mod(33, 5, 1) == 2);
    assert(gf2_xpow_mod(33, 5, 2) == 4);
    assert(gf2_xpow_mod(33, 5, 3) == 8);
    assert(gf2_xpow_mod(33, 5, 4) == 16);
    assert(gf2_xpow_mod(33, 5, 5) == 1);
    assert(1 <= 5 < 31);
}

proof fn lemma_not_primitive_5_1()
    ensures
        !is_primitive(5, 1),
{
    reveal_with_fuel(gf2_add, 8);
    lemma2_to64();
    assert(gf2_xpow_mod(35, 5, 0) == 1);
    assert(gf2_xpow_mod(35, 5, 1) == 2);
    assert(gf2_xpow_mod(35, 5, 2) == 4);
    assert(gf2_xpow_mod(35, 5, 3) == 8);
    assert(gf2_xpow_mod(35, 5, 4) == 16);
    assert(gf2_xpow_mod(35, 5, 5) == 3);
    assert(gf2_xpow_mod(35, 5, 6) == 6);
    assert(gf2_xpow_mod(35, 5, 7) == 12);
    assert(gf2_xpow_mod(35, 5, 8) == 24);
    assert(gf2_xpow_mod(35, 5, 9) == 19);
    assert(gf2_xpow_mod(35, 5, 10) == 5);
    assert(gf2_xpow_mod(35, 5, 11) == 10);
    assert(gf2_xpow_mod(35, 5, 12) == 20);
    assert(gf2_xpow_mod(35, 5, 13) == 11);
    assert(gf2_xpow_mod(35, 5, 14) == 22);
    assert(gf2_xpow_mod(35, 5, 15) == 15);
    assert(gf2_xpow_mod(35, 5, 16) == 30);
    assert(gf2_xpow_mod(35, 5, 17) == 31);
    assert(gf2_xpow_mod(35, 5, 18) == 29);
    assert(gf2_xpow_mod(35, 5, 19) == 25);
    assert(gf2_xpow_mod(35, 5, 20) == 17);
    assert(gf2_xpow_mod(35, 5, 21) == 1);
    assert(1 <= 21 < 31);
}

/// Table row holding polynomial `(s, a)` (7 when it is none of them).
spec fn joe_kuo_row_of(s: nat, a: nat) -> int {
    if s == 1 && a == 0 { 0 }
    else if s == 2 && a == 1 { 1 }
    else if s == 3 && a == 1 { 2 }
    else if s == 3 && a == 2 { 3 }
    else if s == 4 && a == 1 { 4 }
    else if s == 4 && a == 4 { 5 }
    else if s == 5 && a == 2 { 6 }
    else { 7 }
}

/// The polynomials of the direction-number table are the first seven
/// primitive polynomials over GF(2), in order of degree and then of interior
/// coefficients: row `r` (dimension `r + 2`) is primitive, comes after the
/// rows before it, and every primitive polynomial before it is one of those
/// rows.  So dimension 5 uses `x^3 + x^2 + 1` and dimension 4 `x^3 + x + 1`.
pub proof fn lemma_joe_kuo_polynomials(r: int)
    requires
        0 <= r < 7,
    ensures
        is_primitive(joe_kuo_degree_spec(r) as nat, joe_kuo_coeffs_spec(r) as nat),
        forall|i: int| 0 <= i < r ==> #[trigger] poly_before(
            joe_kuo_degree_spec(i) as nat,
            joe_kuo_coeffs_spec(i) as nat,
            joe_kuo_degree_spec(r) as nat,
            joe_kuo_coeffs_spec(r) as nat,
        ),
        forall|s: nat, a: nat|
            poly_before(s, a, joe_kuo_degree_spec(r) as nat, joe_kuo_coeffs_spec(r) as nat)
                && #[trigger] is_primitive(s, a) ==> exists|i: int|
                0 <= i < r && #[trigger] joe_kuo_degree_spec(i) == s && joe_kuo_coeffs_spec(i) == a,
{
    lemma2_to64();
    if r == 0 { lemma_primitive_1_0(); }
    else if r == 1 { lemma_primitive_2_1(); }
    else if r == 2 { lemma_primitive_3_1(); }
    else if r == 3 { lemma_primitive_3_2(); }
    else if r == 4 { lemma_primitive_4_1(); }
    else if r == 5 { lemma_primitive_4_4(); }
    else { lemma_primitive_5_2(); }
    assert forall|s: nat, a: nat|
        poly_before(s, a, joe_kuo_degree_spec(r) as nat, joe_kuo_coeffs_spec(r) as nat)
            && #[trigger] is_primitive(s, a) implies exists|i: int|
            0 <= i < r && #[trigger] joe_kuo_degree_spec(i) == s && joe_kuo_coeffs_spec(i) == a by {
        if s == 2 && a == 0 { lemma_not_primitive_2_0(); }
        else if s == 3 && a == 0 { lemma_not_primitive_3_0(); }
        else if s == 3 && a == 3 { lemma_not_primitive_3_3(); }
        else if s == 4 && a == 0 { lemma_not_primitive_4_0(); }
        else if s == 4 && a == 2 { lemma_not_primitive_4_2(); }
        else if s == 4 && a == 3 { lemma_not_primitive_4_3(); }
        else if s == 4 && a == 5 { lemma_not_primitive_4_5(); }
        else if s == 4 && a == 6 { lemma_not_primitive_4_6(); }
        else if s == 4 && a == 7 { lemma_not_primitive_4_7(); }
        else if s == 5 && a == 0 { lemma_not_primitive_5_0(); }
        else if s == 5 && a == 1 { lemma_not_primitive_5_1(); }
        let i = joe_kuo_row_of(s, a);
        assert(joe_kuo_degree_spec(i) == s && joe_kuo_coeffs_spec(i) == a);
    }
}

fn joe_kuo_degree(r: usize) -> (s: u32)
    requires
        r < 7,
    ensures
        s == joe_kuo_degree_spec(r as int),
{
    if r == 0 { 1 }
    else if r == 1 { 2 }
    else if r == 2 { 3 }
    else if r == 3 { 3 }
    else if r == 4 { 4 }
    else if r == 5 { 4 }
    else { 5 }
}

fn joe_kuo_coeffs(r: usize) -> (a: u32)
    requires
        r < 7,
    ensures
        a == joe_kuo_coeffs_spec(r as int),
{
    if r == 0 { 0 }
    else if r == 1 { 1 }
    else if r == 2 { 1 }
    else if r == 3 { 2 }
    else if r == 4 { 1 }
    else if r == 5 { 4 }
    else { 2 }
}

fn joe_kuo_initial(r: usize, i: usize) -> (m: u32)
    ensures
        m == joe_kuo_initial_spec(r as int, i as int),
{
    if r == 3 && i == 1 { 3 }
    else if r == 4 && (i == 2 || i == 3) { 3 }
    else if r == 5 && i == 1 { 3 }
    else if r == 5 && i == 2 { 5 }
    else if r == 5 && i == 3 { 13 }
    else if r == 6 && (i == 2 || i == 3) { 5 }
    else if r == 6 && i == 4 { 17 }
    else { 1 }
}

/// The value of the Sobol recurrence for entry `i` of a row with polynomial
/// degree `s` and coefficients `a`, after the terms for coefficients `1..k`:
/// `(v[i-s] >> s) ^ v[i-s] ^ XOR_{1 <= c < k, bit (s-1-c) of a} v[i-c]`.
pub open spec fn recurrence(row: Seq<u64>, i: int, s: nat, a: u32, k: nat) -> u64
    decreases k,
{
    if k <= 1 {
        (row[i - s] >> (s as u64)) ^ row[i - s]
    } else {
        let prev = recurrence(row, i, s, a, (k - 1) as nat);
        let c = k - 1;
        if (a >> ((s - 1 - c) as u32)) & 1u32 == 1u32 {
            prev ^ row[i - c]
        } else {
            prev
        }
    }
}

/// The next direction number of dimension index `j` (0-based), given the ones
/// before it.
pub open spec fn next_direction(j: nat, row: Seq<u64>) -> u64 {
    let i = row.len();
    if j == 0 {
        1u64 << ((51 - i) as u64)
    } else {
        let s = joe_kuo_degree_spec(j - 1) as nat;
        if i < s {
            (joe_kuo_initial_spec(j - 1, i as int) as u64) << ((51 - i) as u64)
        } else {
            recurrence(row, i as int, s, joe_kuo_coeffs_spec(j - 1), s)
        }
    }
}

/// The first `n` direction numbers of dimension index `j`.
pub open spec fn direction_prefix(j: nat, n: nat) -> Seq<u64>
    decreases n,
{
    if n == 0 {
        Seq::empty()
    } else {
        let p = direction_prefix(j, (n - 1) as nat);
        p.push(next_direction(j, p))
    }
}

/// The 52 direction numbers of dimension index `j`.
pub open spec fn direction_numbers(j: nat) -> Seq<u64> {
    direction_prefix(j, SOBOL_BITS as nat)
}

/// Number of rows `build_direction_numbers(dim)` produces.
pub open spec fn direction_rows(dim: int) -> int {
    if dim <= 1 {
        1
    } else if dim > 8 {
        8
    } else {
        dim
    }
}

proof fn lemma_next_direction_bound(j: nat, row: Seq<u64>)
    requires
        j < 8,
        row.len() < 52,
        forall|k: int| 0 <= k < row.len() ==> #[trigger] row[k] < 0x10_0000_0000_0000u64,
    ensures
        next_direction(j, row) < 0x10_0000_0000_0000u64,
{
    let i = row.len();
    let sh = (51 - i) as u64;
    if j == 0 {
        assert(1u64 << sh < 0x10_0000_0000_0000u64) by (bit_vector)
            requires sh <= 51;
    } else {
        let s = joe_kuo_degree_spec(j - 1) as nat;
        if i < s {
            let m = joe_kuo_initial_spec(j - 1, i as int) as u64;
            assert(m << sh < 0x10_0000_0000_0000u64) by (bit_vector)
                requires
                    sh <= 51,
                    sh == 51 ==> m < 2,
                    sh == 50 ==> m < 4,
                    sh == 49 ==> m < 8,
                    sh == 48 ==> m < 16,
                    sh == 47 ==> m < 32,
                    sh >= 47;
        } else {
            lemma_recurrence_bound(row, i as int, s, joe_kuo_coeffs_spec(j - 1), s);
        }
    }
}

proof fn lemma_recurrence_bound(row: Seq<u64>, i: int, s: nat, a: u32, k: nat)
    requires
        1 <= s <= i,
        k <= s,
        i <= row.len(),
        forall|c: int| 0 <= c < row.len() ==> #[trigger] row[c] < 0x10_0000_0000_0000u64,
    ensures
        recurrence(row, i, s, a, k) < 0x10_0000_0000_0000u64,
    decreases k,
{
    if k <= 1 {
        let x = row[i - s];
        let sh = s as u64;
        assert((x >> sh) ^ x < 0x10_0000_0000_0000u64) by (bit_vector)
            requires x < 0x10_0000_0000_0000u64;
    } else {
        lemma_recurrence_bound(row, i, s, a, (k - 1) as nat);
        let p = recurrence(row, i, s, a, (k - 1) as nat);
        let y = row[i - (k - 1)];
        assert(p ^ y < 0x10_0000_0000_0000u64) by (bit_vector)
            requires
                p < 0x10_0000_0000_0000u64,
                y < 0x10_0000_0000_0000u64;
    }
}

/// Every direction number lies below `2^52`.
pub proof fn lemma_direction_prefix_bound(j: nat, n: nat)
    requires
        j < 8,
        n <= 52,
    ensures
        direction_prefix(j, n).len() == n,
        forall|k: int| 0 <= k < n ==> #[trigger] direction_prefix(j, n)[k] < sobol_scale(),
    decreases n,
{
    if n > 0 {
        lemma_direction_prefix_bound(j, (n - 1) as nat);
        lemma_next_direction_bound(j, direction_prefix(j, (n - 1) as nat));
    }
}

/// A shorter prefix of direction numbers is a prefix of a longer one.
pub proof fn lemma_direction_prefix_extends(j: nat, n: nat, m: nat)
    requires
        n <= m,
    ensures
        direction_prefix(j, n) == direction_prefix(j, m).subrange(0, n as int),
    decreases m,
{
    lemma_direction_prefix_len(j, m);
    lemma_direction_prefix_len(j, n);
    if n < m {
        lemma_direction_prefix_extends(j, n, (m - 1) as nat);
        lemma_direction_prefix_len(j, (m - 1) as nat);
        assert(direction_prefix(j, m).subrange(0, n as int)
            == direction_prefix(j, (m - 1) as nat).subrange(0, n as int));
    }
}

pub proof fn lemma_direction_prefix_len(j: nat, n: nat)
    ensures
        direction_prefix(j, n).len() == n,
    decreases n,
{
    if n > 0 {
        lemma_direction_prefix_len(j, (n - 1) as nat);
    }
}

proof fn lemma_initial_direction_prefix(j: nat, n: nat)
    requires
        1 <= j < 8,
        n <= joe_kuo_degree_spec(j - 1),
    ensures
        direction_prefix(j, n).len() == n,
        forall|i: int| 0 <= i < n ==> #[trigger] direction_prefix(j, n)[i]
            == (joe_kuo_initial_spec(j - 1, i) as u64) << ((51 - i) as u64),
    decreases n,
{
    if n > 0 {
        lemma_initial_direction_prefix(j, (n - 1) as nat);
    }
}

/// The initial direction numbers are those published by Joe & Kuo (2010) for
/// dimensions 2 to 8: with `m = [1]`, `[1, 1]`, `[1, 1, 1]`, `[1, 3, 1]`,
/// `[1, 1, 3, 3]`, `[1, 3, 5, 13]` and `[1, 1, 5, 5, 17]`, direction number
/// `i < s` of dimension `j + 1` is `m_(i+1) / 2^(i+1)`, i.e. `m_(i+1) << (51 - i)`
/// in 52-bit fixed point.
pub proof fn lemma_joe_kuo_initial_numbers()
    ensures
        direction_numbers(1).subrange(0, 1) == seq![1u64 << 51u64],
        direction_numbers(2).subrange(0, 2) == seq![1u64 << 51u64, 1u64 << 50u64],
        direction_numbers(3).subrange(0, 3) == seq![1u64 << 51u64, 1u64 << 50u64, 1u64 << 49u64],
        direction_numbers(4).subrange(0, 3) == seq![1u64 << 51u64, 3u64 << 50u64, 1u64 << 49u64],
        direction_numbers(5).subrange(0, 4) == seq![1u64 << 51u64, 1u64 << 50u64, 3u64 << 49u64, 3u64 << 48u64],
        direction_numbers(6).subrange(0, 4) == seq![1u64 << 51u64, 3u64 << 50u64, 5u64 << 49u64, 13u64 << 48u64],
        direction_numbers(7).subrange(0, 5) == seq![1u64 << 51u64, 1u64 << 50u64, 5u64 << 49u64, 5u64 << 48u64, 17u64 << 47u64],
{
    lemma_initial_direction_prefix(1, 1);
    lemma_direction_prefix_extends(1, 1, SOBOL_BITS as nat);
    assert(direction_prefix(1, 1) =~= seq![1u64 << 51u64]);
    lemma_initial_direction_prefix(2, 2);
    lemma_direction_prefix_extends(2, 2, SOBOL_BITS as nat);
    assert(direction_prefix(2, 2) =~= seq![1u64 << 51u64, 1u64 << 50u64]);
    lemma_initial_direction_prefix(3, 3);
    lemma_direction_prefix_extends(3, 3, SOBOL_BITS as nat);
    assert(direction_prefix(3, 3) =~= seq![1u64 << 51u64, 1u64 << 50u64, 1u64 << 49u64]);
    lemma_initial_direction_prefix(4, 3);
    lemma_direction_prefix_extends(4, 3, SOBOL_BITS as nat);
    assert(direction_prefix(4, 3) =~= seq![1u64 << 51u64, 3u64 << 50u64, 1u64 << 49u64]);
    lemma_initial_direction_prefix(5, 4);
    lemma_direction_prefix_extends(5, 4, SOBOL_BITS as nat);
    assert(direction_prefix(5, 4) =~= seq![1u64 << 51u64, 1u64 << 50u64, 3u64 << 49u64, 3u64 << 48u64]);
    lemma_initial_direction_prefix(6, 4);
    lemma_direction_prefix_extends(6, 4, SOBOL_BITS as nat);
    assert(direction_prefix(6, 4) =~= seq![1u64 << 51u64, 3u64 << 50u64, 5u64 << 49u64, 13u64 << 48u64]);
    lemma_initial_direction_prefix(7, 5);
    lemma_direction_prefix_extends(7, 5, SOBOL_BITS as nat);
    assert(direction_prefix(7, 5) =~= seq![1u64 << 51u64, 1u64 << 50u64, 5u64 << 49u64, 5u64 << 48u64, 17u64 << 47u64]);
}

proof fn lemma_recurrence_odd_multiple(row: Seq<u64>, i: int, s: nat, a: u32, k: nat)
    requires
        1 <= s <= i < 52,
        1 <= k <= s,
        row.len() >= i,
        forall|c: int| 0 <= c < i ==> #[trigger] odd_multiple(row[c], (51 - c) as u64),
    ensures
        odd_multiple(recurrence(row, i, s, a, k), (51 - i) as u64),
    decreases k,
{
    let e = (51 - i) as u64;
    if k <= 1 {
        let w = row[i - s];
        let f = (51 - (i - s)) as u64;
        assert(odd_multiple(w, f));
        lemma_odd_multiple_shift(w, e, s as u64, f);
        lemma_multiple_of_higher_power(w, e, f);
        lemma_xor_multiples(w >> (s as u64), w, e);
    } else {
        lemma_recurrence_odd_multiple(row, i, s, a, (k - 1) as nat);
        let prev = recurrence(row, i, s, a, (k - 1) as nat);
        let c = k - 1;
        let y = row[i - c];
        let f = (51 - (i - c)) as u64;
        assert(odd_multiple(y, f));
        lemma_multiple_of_higher_power(y, e, f);
        lemma_xor_multiples(prev, y, e);
    }
}

proof fn lemma_direction_prefix_odd_multiple(j: nat, n: nat)
    requires
        j < 8,
        n <= 52,
    ensures
        forall|i: int| 0 <= i < n ==> #[trigger] odd_multiple(direction_prefix(j, n)[i], (51 - i) as u64),
    decreases n,
{
    if n > 0 {
        let m1 = (n - 1) as nat;
        lemma_direction_prefix_odd_multiple(j, m1);
        lemma_direction_prefix_len(j, m1);
        let p = direction_prefix(j, m1);
        let i = m1 as int;
        let e = (51 - i) as u64;
        if j == 0 {
            lemma_small_odd_shifted(1u64, e);
        } else {
            let s = joe_kuo_degree_spec(j - 1) as nat;
            if i < s {
                let m = joe_kuo_initial_spec(j - 1, i) as u64;
                lemma_small_odd_shifted(m, e);
            } else {
                lemma_recurrence_odd_multiple(p, i, s, joe_kuo_coeffs_spec(j - 1), s);
            }
        }
        assert forall|k: int| 0 <= k < n implies #[trigger] odd_multiple(direction_prefix(j, n)[k], (51 - k) as u64) by {
            if k < i {
                assert(direction_prefix(j, n)[k] == p[k]);
            }
        }
    }
}

/// Every direction number is a dyadic fraction with odd numerator:
/// `v_i = m_i / 2^(i+1)` with `m_i` odd and `m_i < 2^(i+1)` (in 52-bit fixed
/// point, `v_i = m_i << (51 - i)`), the condition under which each coordinate
/// of the Sobol sequence is a (0, 1)-sequence in base 2.
pub proof fn lemma_direction_numbers_odd_multiples(j: nat)
    requires
        j < 8,
    ensures
        direction_numbers(j).len() == SOBOL_BITS,
        forall|i: int| 0 <= i < SOBOL_BITS ==> #[trigger] odd_multiple(direction_numbers(j)[i], (51 - i) as u64),
        forall|i: int| 0 <= i < SOBOL_BITS ==> #[trigger] direction_numbers(j)[i] < sobol_scale(),
{
    lemma_direction_prefix_odd_multiple(j, SOBOL_BITS as nat);
    lemma_direction_prefix_bound(j, SOBOL_BITS as nat);
}

/// Direction numbers of one dimension index `j` (0-based).
fn direction_row(j: usize) -> (row: Vec<u64>)
    requires
        j < 8,
    ensures
        row@ == direction_numbers(j as nat),
{
    let mut row: Vec<u64> = Vec::new();
    if j == 0 {
        let mut i: usize = 0;
        while i < SOBOL_BITS
            invariant
                i <= SOBOL_BITS,
                j == 0,
                row@ == direction_prefix(j as nat, i as nat),
            decreases SOBOL_BITS - i,
        {
            proof {
                lemma_direction_prefix_bound(0, i as nat);
            }
            let val = 1u64 << ((SOBOL_BITS - 1 - i) as u64);
            assert(val == next_direction(0, row@));
            row.push(val);
            i = i + 1;
        }
        return row;
    }
    let r = j - 1;
    let s = joe_kuo_degree(r) as usize;
    let a = joe_kuo_coeffs(r);
    let mut i: usize = 0;
    while i < SOBOL_BITS
        invariant
            1 <= j < 8,
            r == j - 1,
            s == joe_kuo_degree_spec(r as int),
            a == joe_kuo_coeffs_spec(r as int),
            1 <= s <= 5,
            i <= SOBOL_BITS,
            row@ == direction_prefix(j as nat, i as nat),
        decreases SOBOL_BITS - i,
    {
        proof {
            lemma_direction_prefix_bound(j as nat, i as nat);
        }
        let val = if i < s {
            (joe_kuo_initial(r, i) as u64) << ((SOBOL_BITS - 1 - i) as u64)
        } else {
            let mut val = (row[i - s] >> (s as u64)) ^ row[i - s];
            let mut k: usize = 1;
            while k < s
                invariant
                    1 <= k <= s,
                    s <= 5,
                    s <= i < SOBOL_BITS,
                    row@.len() == i,
                    val == recurrence(row@, i as int, s as nat, a, k as nat),
                decreases s - k,
            {
                if (a >> ((s - 1 - k) as u32)) & 1u32 == 1u32 {
                    val = val ^ row[i - k];
                }
                k = k + 1;
            }
            val
        };
        row.push(val);
        i = i + 1;
    }
    row
}

/// Build the direction-number table `v[j][i]` for dimension indices
/// `j < dim` (0-based, so `j = 0` is dimension 1, Van der Corput); at least
/// one row and at most eight rows are built.
pub fn build_direction_numbers(dim: usize) -> (v: Vec<Vec<u64>>)
    ensures
        v.len() == direction_rows(dim as int),
        forall|j: int| 0 <= j < v.len() ==> (#[trigger] v[j])@ == direction_numbers(j as nat),
{
    let rows: usize = if dim <= 1 {
        1
    } else if dim > MAX_SOBOL_DIM {
        MAX_SOBOL_DIM
    } else {
        dim
    };
    let mut v: Vec<Vec<u64>> = Vec::new();
    let mut j: usize = 0;
    while j < rows
        invariant
            rows == direction_rows(dim as int),
            j <= rows,
            v.len() == j,
            forall|k: int| 0 <= k < j ==> (#[trigger] v[k])@ == direction_numbers(k as nat),
        decreases rows - j,
    {
        v.push(direction_row(j));
        j = j + 1;
    }
    v
}

} // verus!
