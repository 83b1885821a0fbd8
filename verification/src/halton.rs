//! Halton points: radical inverses of the index in successive prime bases,
//! kept as exact fractions `num / den`.

use vstd::prelude::*;

verus! {

use vstd::arithmetic::div_mod::lemma_div_is_strictly_smaller;

/// Number of precomputed prime bases, the largest supported Halton dimension.
pub const HALTON_MAX_DIM: usize = 20;

/// The base of Halton coordinate `j`: the `(j + 1)`-th prime, for `j < 20`.
pub open spec fn halton_base_spec(j: int) -> u64 {
    if j == 0 { 2 }
    else if j == 1 { 3 }
    else if j == 2 { 5 }
    else if j == 3 { 7 }
    else if j == 4 { 11 }
    else if j == 5 { 13 }
    else if j == 6 { 17 }
    else if j == 7 { 19 }
    else if j == 8 { 23 }
    else if j == 9 { 29 }
    else if j == 10 { 31 }
    else if j == 11 { 37 }
    else if j == 12 { 41 }
    else if j == 13 { 43 }
    else if j == 14 { 47 }
    else if j == 15 { 53 }
    else if j == 16 { 59 }
    else if j == 17 { 61 }
    else if j == 18 { 67 }
    else { 71 }
}

/// The prime base of Halton coordinate `j`.
pub fn halton_base(j: usize) -> (b: u64)
    requires
        j < HALTON_MAX_DIM,
    ensures
        b == halton_base_spec(j as int),
{
    if j == 0 { 2 }
    else if j == 1 { 3 }
    else if j == 2 { 5 }
    else if j == 3 { 7 }
    else if j == 4 { 11 }
    else if j == 5 { 13 }
    else if j == 6 { 17 }
    else if j == 7 { 19 }
    else if j == 8 { 23 }
    else if j == 9 { 29 }
    else if j == 10 { 31 }
    else if j == 11 { 37 }
    else if j == 12 { 41 }
    else if j == 13 { 43 }
    else if j == 14 { 47 }
    else if j == 15 { 53 }
    else if j == 16 { 59 }
    else if j == 17 { 61 }
    else if j == 18 { 67 }
    else { 71 }
}

/// `p` is a prime number.
pub open spec fn is_prime(p: nat) -> bool {
    p > 1 && forall|d: nat| 1 < d < p ==> #[trigger] (p % d) != 0
}

/// Position of `q` among the Halton bases (20 when it is none of them).
spec fn halton_base_index(q: nat) -> int {
    if q == 2 { 0 }
    else if q == 3 { 1 }
    else if q == 5 { 2 }
    else if q == 7 { 3 }
    else if q == 11 { 4 }
    else if q == 13 { 5 }
    else if q == 17 { 6 }
    else if q == 19 { 7 }
    else if q == 23 { 8 }
    else if q == 29 { 9 }
    else if q == 31 { 10 }
    else if q == 37 { 11 }
    else if q == 41 { 12 }
    else if q == 43 { 13 }
    else if q == 47 { 14 }
    else if q == 53 { 15 }
    else if q == 59 { 16 }
    else if q == 61 { 17 }
    else if q == 67 { 18 }
    else if q == 71 { 19 }
    else { 20 }
}

proof fn lemma_listed_primes_have_no_divisor(p: u8, d: u8)
    by (bit_vector)
    requires
        p == 2u8 || p == 3u8 || p == 5u8 || p == 7u8 || p == 11u8 || p == 13u8 || p == 17u8 || p == 19u8 || p == 23u8 || p == 29u8 || p == 31u8 || p == 37u8 || p == 41u8 || p == 43u8 || p == 47u8 || p == 53u8 || p == 59u8 || p == 61u8 || p == 67u8 || p == 71u8,
        1u8 < d,
        d < p,
    ensures
        p % d != 0u8,
{
}

proof fn lemma_unlisted_numbers_have_small_divisor(q: u8)
    by (bit_vector)
    requires
        1u8 < q,
        q < 72u8,
        !(q == 2u8 || q == 3u8 || q == 5u8 || q == 7u8 || q == 11u8 || q == 13u8 || q == 17u8 || q == 19u8 || q == 23u8 || q == 29u8 || q == 31u8 || q == 37u8 || q == 41u8 || q == 43u8 || q == 47u8 || q == 53u8 || q == 59u8 || q == 61u8 || q == 67u8 || q == 71u8),
    ensures
        (q % 2u8 == 0u8 && q != 2u8) || (q % 3u8 == 0u8 && q != 3u8) || (q % 5u8 == 0u8 && q != 5u8)
            || (q % 7u8 == 0u8 && q != 7u8),
{
}

/// The Halton bases are the first 20 primes in increasing order: base `j` is
/// prime, the bases increase, and every prime below base `j` is one of the
/// bases before it, so base `j` is the `(j + 1)`-th prime.
pub proof fn lemma_halton_bases_are_first_primes(j: int)
    requires
        0 <= j < HALTON_MAX_DIM,
    ensures
        is_prime(halton_base_spec(j) as nat),
        forall|i: int| 0 <= i < j ==> #[trigger] halton_base_spec(i) < halton_base_spec(j),
        forall|q: nat| q < halton_base_spec(j) && #[trigger] is_prime(q) ==>
            exists|i: int| 0 <= i < j && #[trigger] halton_base_spec(i) == q,
{
    let p = halton_base_spec(j) as nat;
    assert forall|d: nat| 1 < d < p implies #[trigger] (p % d) != 0 by {
        lemma_listed_primes_have_no_divisor(p as u8, d as u8);
    }
    assert forall|q: nat| q < halton_base_spec(j) && #[trigger] is_prime(q) implies
        exists|i: int| 0 <= i < j && #[trigger] halton_base_spec(i) == q by {
        let qq = q as u8;
        if !(qq == 2u8 || qq == 3u8 || qq == 5u8 || qq == 7u8 || qq == 11u8 || qq == 13u8 || qq == 17u8 || qq == 19u8 || qq == 23u8 || qq == 29u8 || qq == 31u8 || qq == 37u8 || qq == 41u8 || qq == 43u8 || qq == 47u8 || qq == 53u8 || qq == 59u8 || qq == 61u8 || qq == 67u8 || qq == 71u8) {
            lemma_unlisted_numbers_have_small_divisor(qq);
            if q % 2 == 0 && q != 2 { assert(q % 2 != 0); }
            if q % 3 == 0 && q != 3 { assert(q % 3 != 0); }
            if q % 5 == 0 && q != 5 { assert(q % 5 != 0); }
            if q % 7 == 0 && q != 7 { assert(q % 7 != 0); }
        }
        let i = halton_base_index(q);
        assert(halton_base_spec(i) == q);
    }
}

/// Radical inverse with accumulator: the digits of `index` in `base`, read
/// from the least significant one, are appended after the radix point of
/// `num / den`.
pub open spec fn radical_inverse_acc(index: nat, base: nat, num: nat, den: nat) -> (nat, nat)
    decreases index,
{
    if index == 0 || base < 2 {
        (num, den)
    } else {
        proof {
            lemma_div_is_strictly_smaller(index as int, base as int);
        }
        radical_inverse_acc(index / base, base, num * base + index % base, den * base)
    }
}

/// Radical inverse of `index` in `base` as a fraction `(num, den)`: the
/// base-`base` digits of `index` reflected around the radix point, so
/// `radical_inverse(5, 2)` is `0.101` in binary, `5 / 8`.
pub open spec fn radical_inverse_spec(index: nat, base: nat) -> (nat, nat) {
    radical_inverse_acc(index, base, 0, 1)
}

/// Running the accumulator from `(num, den)` scales the radical inverse's
/// denominator by `den` and shifts `num` above its numerator.
proof fn lemma_radical_inverse_acc_linear(index: nat, base: nat, num: nat, den: nat)
    requires
        base >= 2,
    ensures
        radical_inverse_acc(index, base, num, den) == (
            num * radical_inverse_spec(index, base).1 + radical_inverse_spec(index, base).0,
            den * radical_inverse_spec(index, base).1,
        ),
    decreases index,
{
    if index > 0 {
        lemma_div_is_strictly_smaller(index as int, base as int);
        let q = index / base;
        let r = index % base;
        lemma_radical_inverse_acc_linear(q, base, num * base + r, den * base);
        lemma_radical_inverse_acc_linear(q, base, r, base);
        let nn = radical_inverse_spec(q, base).0;
        let dd = radical_inverse_spec(q, base).1;
        assert((num * base + r) * dd + nn == num * (base * dd) + (r * dd + nn)) by (nonlinear_arith);
        assert((den * base) * dd == den * (base * dd)) by (nonlinear_arith);
    }
}

/// Digit reflection: the lowest base-`base` digit of `index` becomes the first
/// digit after the radix point, and the remaining digits (`index / base`) are
/// reflected one place further right:
/// `ri(index) = (index % base) / base + ri(index / base) / base`, as fractions
/// `num / den` with `den = base * den'` and `num = (index % base) * den' + num'`.
/// A single digit `index < base` reflects to `index / base`, and index 0 to 0.
pub proof fn lemma_radical_inverse_reflects_digits(index: nat, base: nat)
    requires
        base >= 2,
    ensures
        index == 0 ==> radical_inverse_spec(index, base) == (0nat, 1nat),
        index > 0 ==> radical_inverse_spec(index, base) == (
            (index % base) * radical_inverse_spec(index / base, base).1
                + radical_inverse_spec(index / base, base).0,
            base * radical_inverse_spec(index / base, base).1,
        ),
        0 < index < base ==> radical_inverse_spec(index, base) == (index, base),
{
    if index > 0 {
        lemma_radical_inverse_acc_linear(index / base, base, index % base, base);
        if index < base {
            assert(index / base == 0) by (nonlinear_arith)
                requires index < base, base >= 2;
            assert(index % base == index) by (nonlinear_arith)
                requires index < base, base >= 2;
        }
    }
}

/// Radical inverse of `index` in the given `base`, as an exact fraction
/// `(num, den)` with `num < den` (a value in `[0, 1)`).
pub fn radical_inverse(index: u64, base: u64) -> (r: (u128, u128))
    requires
        base >= 2,
    ensures
        (r.0 as nat, r.1 as nat) == radical_inverse_spec(index as nat, base as nat),
        r.0 < r.1,
{
    let mut i = index;
    let mut num: u128 = 0;
    let mut den: u128 = 1;
    let b = base as u128;
    while i > 0
        invariant
            base >= 2,
            b == base,
            radical_inverse_acc(i as nat, base as nat, num as nat, den as nat) == radical_inverse_spec(index as nat, base as nat),
            num < den,
            den * i <= index,
        decreases i,
    {
        let d = i % base;
        proof {
            assert(den <= index) by (nonlinear_arith)
                requires den * i <= index, i >= 1, den >= 1;
            assert(den * b < 0x1_0000_0000_0000_0000_0000_0000_0000_0000) by (nonlinear_arith)
                requires den <= index, index < 0x1_0000_0000_0000_0000, b < 0x1_0000_0000_0000_0000;
            assert(num * b + d < den * b) by (nonlinear_arith)
                requires num < den, d < b;
            assert((den * b) * (i / base) <= index) by (nonlinear_arith)
                requires den * i <= index, b == base, base >= 2, den >= 0;
        }
        proof {
            lemma_div_is_strictly_smaller(i as int, base as int);
        }
        num = num * b + d as u128;
        den = den * b;
        i = i / base;
    }
    (num, den)
}

/// The Halton point of `index` in `d` dimensions, each coordinate a fraction.
pub open spec fn halton_point_spec(index: nat, d: nat) -> Seq<(nat, nat)> {
    Seq::new(d, |j: int| radical_inverse_spec(index, halton_base_spec(j) as nat))
}

/// The fractions of a computed point.
pub open spec fn fractions_view(p: Seq<(u128, u128)>) -> Seq<(nat, nat)> {
    Seq::new(p.len(), |j: int| (p[j].0 as nat, p[j].1 as nat))
}

/// Coordinate `j` of a Halton point is the radical inverse of the index in
/// base `halton_base_spec(j)`, which is the `(j + 1)`-th prime: it is prime,
/// the bases of the coordinates before it are smaller, and every prime below
/// it is the base of one of those coordinates.
pub proof fn lemma_halton_coordinate(index: nat, d: nat, j: int)
    requires
        0 <= j < d <= HALTON_MAX_DIM,
    ensures
        halton_point_spec(index, d)[j] == radical_inverse_spec(index, halton_base_spec(j) as nat),
        is_prime(halton_base_spec(j) as nat),
        forall|i: int| 0 <= i < j ==> #[trigger] halton_base_spec(i) < halton_base_spec(j),
        forall|q: nat| q < halton_base_spec(j) && #[trigger] is_prime(q) ==>
            exists|i: int| 0 <= i < j && #[trigger] halton_base_spec(i) == q,
{
    lemma_halton_bases_are_first_primes(j);
}

/// Compute a single Halton point in `[0, 1)^d`; coordinate `j` uses the
/// `(j+1)`-th prime as its radical-inverse base.
pub fn halton_point_fractions(index: usize, d: usize) -> (p: Vec<(u128, u128)>)
    requires
        d <= HALTON_MAX_DIM,
    ensures
        fractions_view(p@) == halton_point_spec(index as nat, d as nat),
        p.len() == d,
        forall|j: int| 0 <= j < d ==> (#[trigger] p[j].0 as nat, p[j].1 as nat)
            == radical_inverse_spec(index as nat, halton_base_spec(j) as nat),
        forall|j: int| 0 <= j < d ==> #[trigger] p[j].0 < p[j].1,
{
    let mut p: Vec<(u128, u128)> = Vec::new();
    let mut j: usize = 0;
    while j < d
        invariant
            d <= HALTON_MAX_DIM,
            j <= d,
            p.len() == j,
            forall|k: int| 0 <= k < j ==> (#[trigger] p[k].0 as nat, p[k].1 as nat)
                == radical_inverse_spec(index as nat, halton_base_spec(k) as nat),
            forall|k: int| 0 <= k < j ==> #[trigger] p[k].0 < p[k].1,
        decreases d - j,
    {
        let r = radical_inverse(index as u64, halton_base(j));
        p.push(r);
        j = j + 1;
    }
    assert(fractions_view(p@) == halton_point_spec(index as nat, d as nat));
    p
}

/// Generate `n` Halton points in `[0, 1)^d`, starting from `index = 1`
/// (index 0 maps to the origin in every dimension).
pub fn halton_sequence_fractions(n: usize, d: usize) -> (pts: Vec<Vec<(u128, u128)>>)
    requires
        d <= HALTON_MAX_DIM,
    ensures
        pts.len() == n,
        forall|k: int| 0 <= k < n ==> fractions_view((#[trigger] pts[k])@) == halton_point_spec((k + 1) as nat, d as nat),
        forall|k: int, j: int| 0 <= k < n && 0 <= j < d ==> #[trigger] pts[k][j].0 < pts[k][j].1,
{
    let mut pts: Vec<Vec<(u128, u128)>> = Vec::new();
    let mut k: usize = 0;
    while k < n
        invariant
            d <= HALTON_MAX_DIM,
            k <= n,
            pts.len() == k,
            forall|c: int| 0 <= c < k ==> fractions_view((#[trigger] pts[c])@) == halton_point_spec((c + 1) as nat, d as nat),
            forall|c: int, j: int| 0 <= c < k && 0 <= j < d ==> #[trigger] pts[c][j].0 < pts[c][j].1,
        decreases n - k,
    {
        let p = halton_point_fractions(k + 1, d);
        pts.push(p);
        k = k + 1;
    }
    pts
}

} // verus!
