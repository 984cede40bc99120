//! Pieces of a zero-knowledge virtual machine over the Goldilocks field.
pub mod either;
pub mod expression;
pub mod field;
pub mod gkr;
pub mod multilinear;
pub mod precompiles;
pub mod ring;
pub mod tables;
pub mod text;
pub mod util;
pub mod mle;
pub mod mle_build;
pub mod virtual_poly;
pub mod virtual_polynomial;
pub mod tower;
pub mod dense;
pub mod witness;
pub mod scheme;
pub mod prime;
pub mod circuit;
pub mod instructions;
pub mod riscv;
