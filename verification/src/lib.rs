//! Low-discrepancy sequences (Halton, Sobol, Owen-scrambled Sobol) over exact
//! integer representations.
//!
//! Every coordinate is computed exactly: Halton coordinates as fractions
//! `num / den`, Sobol coordinates as 52-bit fixed-point integers (the value in
//! `[0, 1)` is the integer divided by `2^52`).

pub mod bits;
pub mod direction;
pub mod halton;
pub mod owen;
pub mod sobol;

pub use bits::rightmost_zero;
pub use direction::{build_direction_numbers, MAX_SOBOL_DIM, SOBOL_BITS};
pub use halton::{
    halton_base, halton_point_fractions, halton_sequence_fractions, radical_inverse,
    HALTON_MAX_DIM,
};
pub use owen::{owen_scramble, sobol_scrambled_raw};
pub use sobol::{sobol_sequence_raw, SobolGenerator};
