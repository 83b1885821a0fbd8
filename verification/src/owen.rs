//! Hash-based Owen scrambling of Sobol coordinates.

use vstd::prelude::*;

verus! {

use vstd::wrapping::u64_specs::{wrapping_add, wrapping_mul};
use vstd::arithmetic::div_mod::{lemma_add_mod_noop, lemma_small_mod, lemma_fundamental_div_mod};
use crate::direction::{SOBOL_BITS, MAX_SOBOL_DIM, sobol_scale};
use crate::bits::lemma_shr_agree;
use crate::sobol::{SobolGenerator, sobol_coord, sobol_point, lemma_sobol_coord_bound};

/// The hash that decides whether a bit is flipped, given the seed, the
/// dimension and the (already scrambled) bits above it.
pub open spec fn scramble_hash(seed: u64, dim: u64, prefix: u64) -> u64 {
    let h0 = wrapping_mul(
        wrapping_add(
            wrapping_mul(wrapping_add(wrapping_mul(seed, 0x9E37_79B9_7F4A_7C15u64), dim), 0x517C_C1B7_2722_0A95u64),
            prefix,
        ),
        0x6C62_272E_07BB_0142u64,
    );
    let h1 = h0 ^ (h0 >> 32u64);
    let h2 = wrapping_mul(h1, 0xBF58_476D_1CE4_E5B9u64);
    h2 ^ (h2 >> 31u64)
}

/// The scramble hash in closed form over the integers modulo `2^64`: the key
/// `seed * 0x9E3779B97F4A7C15 + dim` is multiplied by `0x517CC1B727220A95`,
/// offset by the prefix, multiplied by `0x6C62272E07BB0142`, then mixed by
/// `h ^= h >> 32; h *= 0xBF58476D1CE4E5B9; h ^= h >> 31`.
pub proof fn lemma_scramble_hash_closed_form(seed: u64, dim: u64, prefix: u64)
    ensures
        scramble_hash(seed, dim, prefix) == ({
            let m: int = 0x1_0000_0000_0000_0000int;
            let key: int = (seed * 0x9E37_79B9_7F4A_7C15int + dim) % m;
            let h0 = ((((key * 0x517C_C1B7_2722_0A95int) % m + prefix) % m) * 0x6C62_272E_07BB_0142int) % m;
            let h1 = (h0 as u64) ^ ((h0 as u64) >> 32u64);
            let h2 = ((h1 * 0xBF58_476D_1CE4_E5B9int) % m) as u64;
            h2 ^ (h2 >> 31u64)
        }),
{
    let m: int = 0x1_0000_0000_0000_0000int;
    let a = wrapping_mul(seed, 0x9E37_79B9_7F4A_7C15u64);
    assert(a as int == (seed * 0x9E37_79B9_7F4A_7C15int) % m);
    lemma_wrapping_add_mod(a, dim);
    lemma_add_mod_noop(seed * 0x9E37_79B9_7F4A_7C15int, dim as int, m);
    lemma_small_mod(dim as nat, m as nat);
    let key = wrapping_add(a, dim);
    let b = wrapping_mul(key, 0x517C_C1B7_2722_0A95u64);
    lemma_wrapping_add_mod(b, prefix);
}

proof fn lemma_wrapping_add_mod(x: u64, y: u64)
    ensures
        wrapping_add(x, y) as int == (x + y) % 0x1_0000_0000_0000_0000int,
{
    let m: int = 0x1_0000_0000_0000_0000int;
    if x + y > u64::MAX {
        lemma_fundamental_div_mod(x + y, m);
        assert((x + y) / m == 1) by (nonlinear_arith)
            requires x + y >= m, x + y < 2 * m, (x + y) / m * m <= x + y, m > 0, x + y - (x + y) / m * m < m;
    } else {
        lemma_small_mod((x + y) as nat, m as nat);
    }
}

/// Step `i` of the scramble: flip bit `51 - i` of `y` when the hash of the
/// bits of `y` above it is odd.
pub open spec fn scramble_step(y: u64, dim: u64, seed: u64, i: nat) -> u64 {
    let prefix = y >> ((52 - i) as u64);
    if scramble_hash(seed, dim, prefix) & 1u64 == 1u64 {
        y ^ (1u64 << ((51 - i) as u64))
    } else {
        y
    }
}

/// `x` after the first `i` scramble steps, from the top bit downwards.
pub open spec fn scramble_steps(x: u64, dim: u64, seed: u64, i: nat) -> u64
    decreases i,
{
    if i == 0 {
        x
    } else {
        scramble_step(scramble_steps(x, dim, seed, (i - 1) as nat), dim, seed, (i - 1) as nat)
    }
}

/// The Owen scramble of the 52-bit coordinate `x` for dimension `dim` and
/// `seed`.
pub open spec fn owen_scramble_spec(x: u64, dim: u64, seed: u64) -> u64 {
    scramble_steps(x, dim, seed, SOBOL_BITS as nat)
}

/// Simple hash-based Owen scrambling.
///
/// Each bit `i` (from the top of the 52-bit coordinate) is flipped depending
/// on a hash of the seed, the dimension and all the bits above it, which
/// preserves the stratification of the Sobol points (see
/// `lemma_scramble_stratified` and `lemma_scramble_injective`).
pub fn owen_scramble(x: u64, dim: u64, seed: u64) -> (r: u64)
    ensures
        r == owen_scramble_spec(x, dim, seed),
{
    let ghost x0 = x;
    let mut x = x;
    let mut i: usize = 0;
    while i < SOBOL_BITS
        invariant
            i <= SOBOL_BITS,
            x == scramble_steps(x0, dim, seed, i as nat),
        decreases SOBOL_BITS - i,
    {
        let bit_mask = 1u64 << ((SOBOL_BITS - 1 - i) as u64);
        let prefix = x >> ((SOBOL_BITS - i) as u64);
        let mut h = seed
            .wrapping_mul(0x9E37_79B9_7F4A_7C15)
            .wrapping_add(dim)
            .wrapping_mul(0x517C_C1B7_2722_0A95)
            .wrapping_add(prefix)
            .wrapping_mul(0x6C62_272E_07BB_0142);
        h = h ^ (h >> 32u64);
        h = h.wrapping_mul(0xBF58_476D_1CE4_E5B9);
        h = h ^ (h >> 31u64);
        if h & 1 == 1 {
            x = x ^ bit_mask;
        }
        i = i + 1;
    }
    x
}

/// Scrambling keeps a 52-bit coordinate below `2^52`: scrambled points stay
/// in `[0, 1)`.
pub proof fn lemma_scramble_bound(x: u64, dim: u64, seed: u64, i: nat)
    requires
        x < sobol_scale(),
        i <= 52,
    ensures
        scramble_steps(x, dim, seed, i) < sobol_scale(),
    decreases i,
{
    if i > 0 {
        lemma_scramble_bound(x, dim, seed, (i - 1) as nat);
        let y = scramble_steps(x, dim, seed, (i - 1) as nat);
        let sh = (51 - (i - 1)) as u64;
        assert(y ^ (1u64 << sh) < 0x10_0000_0000_0000u64) by (bit_vector)
            requires
                y < 0x10_0000_0000_0000u64,
                sh < 52;
    }
}

/// The top `k` bits after any number of steps depend only on the top `k`
/// bits of the input.
proof fn lemma_steps_prefix(x: u64, y: u64, dim: u64, seed: u64, i: nat, k: nat)
    requires
        k <= 52,
        i <= 52,
        x >> ((52 - k) as u64) == y >> ((52 - k) as u64),
    ensures
        scramble_steps(x, dim, seed, i) >> ((52 - k) as u64) == scramble_steps(y, dim, seed, i) >> ((52 - k) as u64),
    decreases i,
{
    if i > 0 {
        let m = (i - 1) as nat;
        lemma_steps_prefix(x, y, dim, seed, m, k);
        let zx = scramble_steps(x, dim, seed, m);
        let zy = scramble_steps(y, dim, seed, m);
        let a = (52 - k) as u64;
        if m >= k {
            let b = (51 - m) as u64;
            assert((zx ^ (1u64 << b)) >> a == zx >> a) by (bit_vector)
                requires b < a, a <= 52;
            assert((zy ^ (1u64 << b)) >> a == zy >> a) by (bit_vector)
                requires b < a, a <= 52;
        } else {
            let c = (52 - m) as u64;
            let b = (51 - m) as u64;
            lemma_shr_agree(zx, zy, a, c);
            assert((zx ^ (1u64 << b)) >> a == (zy ^ (1u64 << b)) >> a) by (bit_vector)
                requires zx >> a == zy >> a;
        }
    }
}

/// Stratification: the top `k` bits of a scrambled coordinate depend only on
/// the top `k` bits of the coordinate, so points that share an elementary
/// interval of width `2^-k` land in a common elementary interval of that width.
pub proof fn lemma_scramble_stratified(x: u64, y: u64, dim: u64, seed: u64, k: nat)
    requires
        k <= 52,
        x >> ((52 - k) as u64) == y >> ((52 - k) as u64),
    ensures
        owen_scramble_spec(x, dim, seed) >> ((52 - k) as u64) == owen_scramble_spec(y, dim, seed) >> ((52 - k) as u64),
{
    lemma_steps_prefix(x, y, dim, seed, 52, k);
}

/// Steps after step `k` leave the top `k` bits alone.
proof fn lemma_steps_keep_top(z: u64, dim: u64, seed: u64, k: nat, i: nat)
    requires
        k <= i <= 52,
    ensures
        scramble_steps(z, dim, seed, i) >> ((52 - k) as u64) == scramble_steps(z, dim, seed, k) >> ((52 - k) as u64),
    decreases i,
{
    if i > k {
        let m = (i - 1) as nat;
        lemma_steps_keep_top(z, dim, seed, k, m);
        let w = scramble_steps(z, dim, seed, m);
        let a = (52 - k) as u64;
        let b = (51 - m) as u64;
        assert((w ^ (1u64 << b)) >> a == w >> a) by (bit_vector)
            requires b < a, a <= 52;
    }
}

/// The first `i` steps leave the bits below position `52 - i` alone.
proof fn lemma_steps_keep_low(z: u64, dim: u64, seed: u64, i: nat)
    requires
        i <= 52,
    ensures
        (scramble_steps(z, dim, seed, i) ^ z) & !(0xffff_ffff_ffff_ffffu64 << ((52 - i) as u64)) == 0u64,
    decreases i,
{
    if i == 0 {
        assert((z ^ z) & !(0xffff_ffff_ffff_ffffu64 << 52u64) == 0u64) by (bit_vector);
    } else {
        let m = (i - 1) as nat;
        lemma_steps_keep_low(z, dim, seed, m);
        let w = scramble_steps(z, dim, seed, m);
        let b = (51 - m) as u64;
        let c = (52 - m) as u64;
        assert((w ^ z) & !(0xffff_ffff_ffff_ffffu64 << b) == 0u64) by (bit_vector)
            requires
                (w ^ z) & !(0xffff_ffff_ffff_ffffu64 << c) == 0u64,
                c == b + 1,
                b < 52;
        assert(((w ^ (1u64 << b)) ^ z) & !(0xffff_ffff_ffff_ffffu64 << b) == 0u64) by (bit_vector)
            requires
                (w ^ z) & !(0xffff_ffff_ffff_ffffu64 << c) == 0u64,
                c == b + 1,
                b < 52;
    }
}

/// Equal scrambles of two 52-bit coordinates agree with the coordinates' top
/// `k` bits.
proof fn lemma_scramble_recovers_prefix(x: u64, y: u64, dim: u64, seed: u64, k: nat)
    requires
        x < sobol_scale(),
        y < sobol_scale(),
        owen_scramble_spec(x, dim, seed) == owen_scramble_spec(y, dim, seed),
        k <= 52,
    ensures
        x >> ((52 - k) as u64) == y >> ((52 - k) as u64),
    decreases k,
{
    if k == 0 {
        assert(x >> 52u64 == 0u64 && y >> 52u64 == 0u64) by (bit_vector)
            requires
                x < 0x10_0000_0000_0000u64,
                y < 0x10_0000_0000_0000u64;
    } else {
        let m = (k - 1) as nat;
        lemma_scramble_recovers_prefix(x, y, dim, seed, m);
        let a = (52 - m) as u64;
        let s = (51 - m) as u64;
        let sx = scramble_steps(x, dim, seed, m);
        let sy = scramble_steps(y, dim, seed, m);
        lemma_steps_prefix(x, y, dim, seed, m, m);
        assert(sx >> a == sy >> a);
        let tx = scramble_steps(x, dim, seed, k);
        let ty = scramble_steps(y, dim, seed, k);
        lemma_steps_keep_top(x, dim, seed, k, 52);
        lemma_steps_keep_top(y, dim, seed, k, 52);
        assert(tx >> s == ty >> s);
        let f = 1u64 << s;
        if scramble_hash(seed, dim, sx >> a) & 1u64 == 1u64 {
            assert(tx == sx ^ f);
            assert(ty == sy ^ f);
            assert(sx >> s == sy >> s) by (bit_vector)
                requires (sx ^ f) >> s == (sy ^ f) >> s;
        } else {
            assert(tx == sx);
            assert(ty == sy);
        }
        lemma_steps_keep_low(x, dim, seed, m);
        lemma_steps_keep_low(y, dim, seed, m);
        assert(x >> s == y >> s) by (bit_vector)
            requires
                sx >> s == sy >> s,
                (sx ^ x) & !(0xffff_ffff_ffff_ffffu64 << a) == 0u64,
                (sy ^ y) & !(0xffff_ffff_ffff_ffffu64 << a) == 0u64,
                x >> a == y >> a,
                a == s + 1,
                s < 52;
    }
}

/// Scrambling is injective on 52-bit coordinates (with the bound lemma, a
/// permutation of `[0, 2^52)`): distinct points stay distinct.
pub proof fn lemma_scramble_injective(x: u64, y: u64, dim: u64, seed: u64)
    requires
        x < sobol_scale(),
        y < sobol_scale(),
        owen_scramble_spec(x, dim, seed) == owen_scramble_spec(y, dim, seed),
    ensures
        x == y,
{
    lemma_scramble_recovers_prefix(x, y, dim, seed, 52);
    assert(x >> 0u64 == x && y >> 0u64 == y) by (bit_vector);
}

proof fn lemma_steps_keyed(x: u64, seed1: u64, dim1: u64, seed2: u64, dim2: u64, i: nat)
    requires
        wrapping_add(wrapping_mul(seed1, 0x9E37_79B9_7F4A_7C15u64), dim1)
            == wrapping_add(wrapping_mul(seed2, 0x9E37_79B9_7F4A_7C15u64), dim2),
    ensures
        scramble_steps(x, dim1, seed1, i) == scramble_steps(x, dim2, seed2, i),
    decreases i,
{
    if i > 0 {
        lemma_steps_keyed(x, seed1, dim1, seed2, dim2, (i - 1) as nat);
        let y = scramble_steps(x, dim1, seed1, (i - 1) as nat);
        let prefix = y >> ((52 - (i - 1)) as u64);
        assert(scramble_hash(seed1, dim1, prefix) == scramble_hash(seed2, dim2, prefix));
    }
}

/// Each coordinate is scrambled by a permutation keyed by the single 64-bit
/// value `seed * 0x9E3779B97F4A7C15 + dim` (wrapping), with the full
/// dimension added: two (seed, dimension) pairs with the same key scramble
/// every coordinate identically.  For one seed, distinct dimensions give
/// distinct keys, so every dimension gets its own key.
pub proof fn lemma_scramble_keyed_by_seed_and_dimension(
    x: u64,
    seed1: u64,
    dim1: u64,
    seed2: u64,
    dim2: u64,
)
    requires
        wrapping_add(wrapping_mul(seed1, 0x9E37_79B9_7F4A_7C15u64), dim1)
            == wrapping_add(wrapping_mul(seed2, 0x9E37_79B9_7F4A_7C15u64), dim2),
    ensures
        owen_scramble_spec(x, dim1, seed1) == owen_scramble_spec(x, dim2, seed2),
        seed1 == seed2 ==> dim1 == dim2,
{
    lemma_steps_keyed(x, seed1, dim1, seed2, dim2, SOBOL_BITS as nat);
}

/// The Owen-scrambled Sobol point of a generator whose counter is `n`.
pub open spec fn scrambled_point(dim: nat, n: nat, seed: u64) -> Seq<u64> {
    Seq::new(dim, |j: int| owen_scramble_spec(sobol_coord(j as nat, n), j as u64, seed))
}

/// Generate `n` Owen-scrambled Sobol points in `[0, 1)^d` (fixed point, scale
/// `2^52`), each coordinate `j` scrambled with dimension `j` and `seed`.
pub fn sobol_scrambled_raw(n: usize, d: usize, seed: u64) -> (pts: Vec<Vec<u64>>)
    requires
        1 <= d <= MAX_SOBOL_DIM,
        n < u64::MAX,
    ensures
        pts.len() == n,
        forall|k: int| 0 <= k < n ==> (#[trigger] pts[k])@ == scrambled_point(d as nat, (k + 2) as nat, seed),
        forall|k: int| 0 <= k < n ==> (#[trigger] pts[k]).len() == d,
        forall|k: int, j: int| 0 <= k < n && 0 <= j < d ==> #[trigger] pts[k][j]
            == owen_scramble_spec(sobol_coord(j as nat, (k + 2) as nat), j as u64, seed),
        forall|k: int, j: int| 0 <= k < n && 0 <= j < d ==> #[trigger] pts[k][j] < sobol_scale(),
{
    let mut gen = SobolGenerator::new(d);
    gen.skip(1);
    let mut pts: Vec<Vec<u64>> = Vec::new();
    let mut i: usize = 0;
    while i < n
        invariant
            n < u64::MAX,
            1 <= d <= MAX_SOBOL_DIM,
            i <= n,
            gen.wf(),
            gen.dimension() == d,
            gen.position() == i + 1,
            pts.len() == i,
            forall|k: int| 0 <= k < i ==> (#[trigger] pts[k])@ == scrambled_point(d as nat, (k + 2) as nat, seed),
            forall|k: int, j: int| 0 <= k < i && 0 <= j < d ==> #[trigger] pts[k][j] < sobol_scale(),
        decreases n - i,
    {
        let p = gen.next_raw();
        let mut q: Vec<u64> = Vec::new();
        let mut j: usize = 0;
        while j < d
            invariant
                j <= d,
                d <= MAX_SOBOL_DIM,
                p@ == sobol_point(d as nat, (i + 2) as nat),
                q.len() == j,
                forall|c: int| 0 <= c < j ==> #[trigger] q[c] == owen_scramble_spec(sobol_coord(c as nat, (i + 2) as nat), c as u64, seed),
                forall|c: int| 0 <= c < j ==> #[trigger] q[c] < sobol_scale(),
            decreases d - j,
        {
            let r = owen_scramble(p[j], j as u64, seed);
            proof {
                lemma_sobol_coord_bound(j as nat, (i + 2) as nat);
                lemma_scramble_bound(p[j as int], j as u64, seed, 52);
            }
            q.push(r);
            j = j + 1;
        }
        assert(q@ == scrambled_point(d as nat, (i + 2) as nat, seed));
        pts.push(q);
        i = i + 1;
    }
    pts
}

} // verus!
