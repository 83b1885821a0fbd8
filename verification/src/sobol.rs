//! Incremental Sobol generator using Gray-code enumeration, with 52-bit
//! fixed-point coordinates.

use vstd::prelude::*;

verus! {

use crate::bits::{trailing_ones, bit, gray, rightmost_zero, lemma_trailing_ones_bits, lemma_gray_step};
use vstd::arithmetic::power2::{pow2, lemma_pow2_unfold, lemma2_to64, lemma2_to64_rest};
use crate::direction::{
    SOBOL_BITS, MAX_SOBOL_DIM, sobol_scale, direction_numbers, direction_prefix, next_direction,
    build_direction_numbers, lemma_direction_prefix_bound, lemma_direction_prefix_extends,
    lemma_direction_prefix_len,
};

/// Index of the direction number XORed in when leaving index `t + 1`: the
/// rightmost zero bit of `t`, clamped to the last direction number.
pub open spec fn gray_bit(t: u64) -> nat {
    if trailing_ones(t) < 51 {
        trailing_ones(t)
    } else {
        51
    }
}

/// Coordinate `j` (fixed point, scale `2^52`) of the Sobol generator once its
/// counter has reached `n`: the origin for `n <= 1`, and each later step XORs
/// in the direction number selected by the rightmost zero bit of `n - 2`
/// (clamped to the last of the 52 direction numbers).
pub open spec fn sobol_coord(j: nat, n: nat) -> u64
    decreases n,
{
    if n <= 1 {
        0
    } else {
        sobol_coord(j, (n - 1) as nat) ^ direction_numbers(j)[gray_bit((n - 2) as u64) as int]
    }
}

/// The Sobol point (all `dim` coordinates) of a generator whose counter is `n`.
pub open spec fn sobol_point(dim: nat, n: nat) -> Seq<u64> {
    Seq::new(dim, |j: int| sobol_coord(j as nat, n))
}

/// XOR of the direction numbers of dimension index `j` selected by the bits
/// of `g` below position `k`.
pub open spec fn gray_combination(j: nat, g: u64, k: nat) -> u64
    decreases k,
{
    if k == 0 {
        0
    } else {
        let prev = gray_combination(j, g, (k - 1) as nat);
        if bit(g, (k - 1) as nat) {
            prev ^ direction_numbers(j)[k - 1]
        } else {
            prev
        }
    }
}

proof fn lemma_xor_facts(x: u64, y: u64, z: u64)
    by (bit_vector)
    ensures
        (x ^ y) ^ z == (x ^ z) ^ y,
        (x ^ y) ^ y == x,
        x ^ 0u64 == x,
        0u64 ^ x == x,
{
}

/// Every Sobol coordinate lies below `2^52`: the point lies in `[0, 1)^d`.
pub proof fn lemma_sobol_coord_bound(j: nat, n: nat)
    requires
        j < 8,
    ensures
        sobol_coord(j, n) < sobol_scale(),
    decreases n,
{
    if n > 1 {
        lemma_sobol_coord_bound(j, (n - 1) as nat);
        lemma_direction_prefix_bound(j, SOBOL_BITS as nat);
        let a = sobol_coord(j, (n - 1) as nat);
        let b = direction_numbers(j)[gray_bit((n - 2) as u64) as int];
        assert(a ^ b < 0x10_0000_0000_0000u64) by (bit_vector)
            requires
                a < 0x10_0000_0000_0000u64,
                b < 0x10_0000_0000_0000u64;
    }
}

proof fn lemma_gray_combination_zero(j: nat, k: nat)
    ensures
        gray_combination(j, 0, k) == 0,
    decreases k,
{
    if k > 0 {
        lemma_gray_combination_zero(j, (k - 1) as nat);
        let i = (k - 1) as u64;
        assert((0u64 >> i) & 1u64 == 0u64) by (bit_vector);
    }
}

/// Flipping bit `b` of the selector toggles direction number `b` in the
/// combination.
proof fn lemma_gray_combination_flip(j: nat, g: u64, b: nat, k: nat)
    requires
        b < 52,
        k <= 52,
    ensures
        gray_combination(j, g ^ (1u64 << (b as u64)), k) == (if b < k {
            gray_combination(j, g, k) ^ direction_numbers(j)[b as int]
        } else {
            gray_combination(j, g, k)
        }),
    decreases k,
{
    if k > 0 {
        let i = (k - 1) as nat;
        let g2 = g ^ (1u64 << (b as u64));
        lemma_gray_combination_flip(j, g, b, i);
        let ii = i as u64;
        let bb = b as u64;
        assert(((g2 >> ii) & 1u64 == 1u64) == (((g >> ii) & 1u64 == 1u64) != (ii == bb))) by (bit_vector)
            requires
                g2 == g ^ (1u64 << bb),
                ii < 64,
                bb < 64;
        let p = gray_combination(j, g, i);
        let d = direction_numbers(j)[b as int];
        let e = direction_numbers(j)[i as int];
        lemma_xor_facts(p, d, e);
        lemma_xor_facts(p, e, d);
    }
}

/// `n` is at least `2^k - 1` when its `k` lowest bits are all one.
proof fn lemma_trailing_ones_lower(t: u64, k: nat)
    requires
        trailing_ones(t) >= k,
    ensures
        t + 1 >= pow2(k),
    decreases k,
{
    if k == 0 {
        lemma2_to64();
    } else {
        assert(t % 2 == 1);
        lemma_trailing_ones_lower(t / 2, (k - 1) as nat);
        lemma_pow2_unfold(k);
    }
}

/// Gray-code enumeration: for `1 <= n <= 2^52`, the Sobol point at counter `n`
/// is the XOR of the direction numbers selected by the Gray code of `n - 1`.
pub proof fn lemma_sobol_is_gray_code(j: nat, n: nat)
    requires
        1 <= n <= sobol_scale(),
    ensures
        sobol_coord(j, n) == gray_combination(j, gray((n - 1) as u64), SOBOL_BITS as nat),
    decreases n,
{
    if n == 1 {
        assert(gray(0u64) == 0u64) by (bit_vector);
        lemma_gray_combination_zero(j, SOBOL_BITS as nat);
    } else {
        let t = (n - 2) as u64;
        lemma_sobol_is_gray_code(j, (n - 1) as nat);
        lemma_gray_step(t);
        if trailing_ones(t) >= 52 {
            lemma_trailing_ones_lower(t, 52);
            lemma2_to64_rest();
        }
        let b = trailing_ones(t);
        assert(gray_bit(t) == b);
        assert((t + 1) as u64 == (n - 1) as u64);
        let g = gray(t);
        assert(gray((t + 1) as u64) == g ^ (1u64 << (b as u64))) by {
            lemma_xor_facts(g, gray((t + 1) as u64), gray((t + 1) as u64));
            let h = gray((t + 1) as u64);
            let f = 1u64 << (b as u64);
            assert(g ^ h == f);
            assert(h == g ^ f) by (bit_vector)
                requires g ^ h == f;
        }
        lemma_gray_combination_flip(j, g, b, SOBOL_BITS as nat);
    }
}

/// The first point of the generator (counter 1) is the origin, and the first
/// point after it is `1/2` in every dimension.
pub proof fn lemma_first_points(dim: nat)
    requires
        dim <= 8,
    ensures
        forall|j: int| 0 <= j < dim ==> #[trigger] sobol_point(dim, 1)[j] == 0u64,
        forall|j: int| 0 <= j < dim ==> #[trigger] sobol_point(dim, 2)[j] == 0x8_0000_0000_0000u64,
{
    assert forall|j: int| 0 <= j < dim implies #[trigger] sobol_point(dim, 2)[j] == 0x8_0000_0000_0000u64 by {
        let jj = j as nat;
        assert(gray_bit(0u64) == 0);
        lemma_direction_prefix_extends(jj, 1, SOBOL_BITS as nat);
        lemma_direction_prefix_len(jj, SOBOL_BITS as nat);
        let e = Seq::<u64>::empty();
        assert(direction_prefix(jj, 0) == e);
        assert(direction_prefix(jj, 1) == e.push(next_direction(jj, e)));
        assert(1u64 << 51u64 == 0x8_0000_0000_0000u64) by (bit_vector);
        assert((1u32 as u64) << 51u64 == 0x8_0000_0000_0000u64) by (bit_vector);
        assert(next_direction(jj, e) == 0x8_0000_0000_0000u64);
        let full = direction_prefix(jj, SOBOL_BITS as nat);
        assert(direction_prefix(jj, 1)[0] == full.subrange(0, 1)[0]);
        assert(full.subrange(0, 1)[0] == full[0]);
        assert(direction_numbers(jj)[0] == 0x8_0000_0000_0000u64);
        assert(sobol_coord(jj, 2) == sobol_coord(jj, 1) ^ direction_numbers(jj)[0]);
        lemma_xor_facts(0x8_0000_0000_0000u64, 0u64, 0u64);
        assert(sobol_point(dim, 2)[j] == sobol_coord(jj, 2));
    }
}

/// Incremental Sobol sequence generator using Gray-code enumeration.
///
/// Each call to [`next_raw`](SobolGenerator::next_raw) returns the next point
/// and advances the internal counter.  The generator supports up to 8
/// dimensions (1 Van der Corput + 7 from the Joe-Kuo table).
#[derive(Debug, Clone)]
pub struct SobolGenerator {
    dim: usize,
    index: u64,
    x: Vec<u64>,
    v: Vec<Vec<u64>>,
}

impl SobolGenerator {
    /// Number of dimensions.
    pub closed spec fn dimension(&self) -> nat {
        self.dim as nat
    }

    /// Number of points already generated, including the origin.
    pub closed spec fn position(&self) -> nat {
        self.index as nat
    }

    /// The current point, in fixed point with scale `2^52`.
    pub closed spec fn coords(&self) -> Seq<u64> {
        self.x@
    }

    /// The generator's internal consistency: the table holds the direction
    /// numbers and the current point is the Sobol point of its counter.
    pub closed spec fn wf(&self) -> bool {
        &&& 1 <= self.dim <= MAX_SOBOL_DIM
        &&& self.x.len() == self.dim
        &&& self.v.len() == self.dim
        &&& forall|j: int| 0 <= j < self.dim ==> (#[trigger] self.v[j])@ == direction_numbers(j as nat)
        &&& self.x@ == sobol_point(self.dim as nat, self.index as nat)
    }

    /// A well-formed generator's current point is the Sobol point of its
    /// counter.
    pub proof fn lemma_coords(&self)
        requires
            self.wf(),
        ensures
            self.coords() == sobol_point(self.dimension(), self.position()),
            1 <= self.dimension() <= 8,
    {
    }

    /// The state of a generator is determined by its dimension and counter, so
    /// skipping `k` points and then generating yields exactly the points a
    /// generator produces after generating its first `k` points.
    pub proof fn lemma_state_determined(a: &SobolGenerator, b: &SobolGenerator)
        requires
            a.wf(),
            b.wf(),
            a.dimension() == b.dimension(),
            a.position() == b.position(),
        ensures
            a.coords() == b.coords(),
    {
    }

    /// Create a new Sobol generator for `dim` dimensions, positioned at the
    /// origin (index 0).
    pub fn new(dim: usize) -> (g: Self)
        requires
            1 <= dim <= MAX_SOBOL_DIM,
        ensures
            g.wf(),
            g.dimension() == dim,
            g.position() == 0,
    {
        let v = build_direction_numbers(dim);
        let mut x: Vec<u64> = Vec::new();
        let mut j: usize = 0;
        while j < dim
            invariant
                j <= dim,
                x.len() == j,
                forall|k: int| 0 <= k < j ==> #[trigger] x[k] == 0u64,
            decreases dim - j,
        {
            x.push(0u64);
            j = j + 1;
        }
        assert(x@ == sobol_point(dim as nat, 0));
        SobolGenerator { dim, index: 0, x, v }
    }

    /// Advance the counter by one and update the current point.
    fn advance(&mut self)
        requires
            old(self).wf(),
            old(self).position() < u64::MAX,
        ensures
            final(self).wf(),
            final(self).dimension() == old(self).dimension(),
            final(self).position() == old(self).position() + 1,
    {
        if self.index == 0 {
            self.index = 1;
            assert(self.x@ == sobol_point(self.dim as nat, 1));
            return;
        }
        let t = self.index - 1;
        let c0 = rightmost_zero(t);
        let c = if c0 < SOBOL_BITS - 1 { c0 } else { SOBOL_BITS - 1 };
        let ghost n = self.index as nat;
        let dim = self.dim;
        let mut j: usize = 0;
        while j < dim
            invariant
                1 <= dim <= MAX_SOBOL_DIM,
                dim == self.dim,
                n == self.index,
                n >= 1,
                t == n - 1,
                c == gray_bit(t),
                c < SOBOL_BITS,
                j <= dim,
                self.x.len() == dim,
                self.v.len() == dim,
                forall|k: int| 0 <= k < dim ==> (#[trigger] self.v[k])@ == direction_numbers(k as nat),
                forall|k: int| 0 <= k < j ==> #[trigger] self.x[k] == sobol_coord(k as nat, n + 1),
                forall|k: int| j <= k < dim ==> #[trigger] self.x[k] == sobol_coord(k as nat, n),
            decreases dim - j,
        {
            proof {
                lemma_direction_prefix_bound(j as nat, SOBOL_BITS as nat);
            }
            let d = self.v[j][c];
            self.x[j] = self.x[j] ^ d;
            j = j + 1;
        }
        self.index = self.index + 1;
        assert(self.x@ == sobol_point(self.dim as nat, self.index as nat));
    }

    /// Return the next Sobol point (fixed point, scale `2^52`) and advance the
    /// counter.  The first call returns the origin.
    pub fn next_raw(&mut self) -> (p: Vec<u64>)
        requires
            old(self).wf(),
            old(self).position() < u64::MAX,
        ensures
            final(self).wf(),
            final(self).dimension() == old(self).dimension(),
            final(self).position() == old(self).position() + 1,
            p@ == sobol_point(old(self).dimension(), old(self).position() + 1),
            forall|j: int| 0 <= j < p.len() ==> #[trigger] p[j] < sobol_scale(),
    {
        self.advance();
        proof {
            assert forall|j: int| 0 <= j < self.x.len() implies #[trigger] self.x[j] < sobol_scale() by {
                lemma_sobol_coord_bound(j as nat, self.index as nat);
            }
        }
        self.x.clone()
    }

    /// Skip `n` points without allocating output vectors.
    pub fn skip(&mut self, n: u64)
        requires
            old(self).wf(),
            old(self).position() + n <= u64::MAX,
        ensures
            final(self).wf(),
            final(self).dimension() == old(self).dimension(),
            final(self).position() == old(self).position() + n,
    {
        let ghost start = self.index as nat;
        let mut i: u64 = 0;
        while i < n
            invariant
                self.wf(),
                self.dimension() == old(self).dimension(),
                start == old(self).position(),
                start + n <= u64::MAX,
                i <= n,
                self.position() == start + i,
            decreases n - i,
        {
            self.advance();
            i = i + 1;
        }
    }

    /// Current index (number of points already generated, including the
    /// origin).
    pub fn index(&self) -> (i: u64)
        ensures
            i == self.position(),
    {
        self.index
    }
}

/// Generate `n` Sobol points in `[0, 1)^d` (fixed point, scale `2^52`),
/// starting from index 1 (the origin at index 0 is skipped).
pub fn sobol_sequence_raw(n: usize, d: usize) -> (pts: Vec<Vec<u64>>)
    requires
        1 <= d <= MAX_SOBOL_DIM,
        n < u64::MAX,
    ensures
        pts.len() == n,
        forall|k: int| 0 <= k < n ==> (#[trigger] pts[k])@ == sobol_point(d as nat, (k + 2) as nat),
        forall|k: int| 0 <= k < n ==> (#[trigger] pts[k]).len() == d,
        forall|k: int, j: int| 0 <= k < n && 0 <= j < d ==> #[trigger] pts[k][j] == sobol_coord(j as nat, (k + 2) as nat),
        forall|k: int, j: int| 0 <= k < n && 0 <= j < d ==> #[trigger] pts[k][j] < sobol_scale(),
{
    let mut gen = SobolGenerator::new(d);
    gen.skip(1);
    let mut pts: Vec<Vec<u64>> = Vec::new();
    let mut i: usize = 0;
    while i < n
        invariant
            n < u64::MAX,
            i <= n,
            gen.wf(),
            gen.dimension() == d,
            gen.position() == i + 1,
            pts.len() == i,
            forall|k: int| 0 <= k < i ==> (#[trigger] pts[k])@ == sobol_point(d as nat, (k + 2) as nat),
            forall|k: int, j: int| 0 <= k < i && 0 <= j < d ==> #[trigger] pts[k][j] < sobol_scale(),
        decreases n - i,
    {
        let p = gen.next_raw();
        pts.push(p);
        i = i + 1;
    }
    pts
}

} // verus!
