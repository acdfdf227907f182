//! Terms of order-k linear recurrence sequences over arbitrary-precision
//! integers: single terms by companion-matrix exponentiation or fast doubling,
//! whole prefixes by iteration, optionally reduced modulo a positive integer.

pub mod bigint;
pub mod decimal;
pub mod error;
pub mod expression;
pub mod fast_doubling;
pub mod generator;
pub mod magnitude;
pub mod matrix;
pub mod matrix_lemmas;
pub mod sequence;
pub mod sequence_lemmas;
