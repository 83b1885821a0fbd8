# lowdisc

Low-discrepancy sequences for quasi-Monte Carlo integration, verified with
Verus: Halton points, Sobol points (Gray-code enumeration, up to 8 dimensions,
Joe & Kuo direction numbers) and hash-based Owen-scrambled Sobol points.

The verified library (`src/`) computes every coordinate exactly: Halton
coordinates as fractions `num / den`, Sobol coordinates as 52-bit fixed-point
integers. Its contracts state each result over spec functions, and the proofs
cover, among others:

- every point lies in `[0, 1)^d`;
- the Sobol point at counter `n` is the XOR of the direction numbers selected
  by the Gray code of `n - 1` (`sobol::lemma_sobol_is_gray_code`);
- Owen scrambling preserves stratification and is injective on 52-bit
  coordinates (`owen::lemma_scramble_stratified`, `owen::lemma_scramble_injective`);
- the Halton bases are the first 20 primes
  (`halton::lemma_halton_bases_are_first_primes`).

Layout:

- `src/bits.rs`: rightmost zero bit, Gray code;
- `src/direction.rs`: the direction-number table;
- `src/sobol.rs`: `SobolGenerator` and `sobol_sequence_raw`;
- `src/owen.rs`: `owen_scramble` and `sobol_scrambled_raw`;
- `src/halton.rs`: radical inverses and Halton points;
- `app/lib.rs`: the `f64` interface (`halton_point`, `halton_sequence`,
  `sobol_sequence`, `sobol_scrambled`, `SobolNext::next`), which converts the
  exact coordinates to floating point.
