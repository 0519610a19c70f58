//! The GKR interactive proof for layered arithmetic circuits, with the
//! multilinear and univariate polynomial algebra and the sum-check protocol
//! it is built from, made non-interactive by a Keccak-256 transcript.

pub mod circuits;
pub mod densed_uni_poly;
pub mod evaluation;
pub mod field;
pub mod gkr_p;
pub mod interpolation;
pub mod layer;
pub mod poly_sum;
pub mod product_poly;
pub mod sum_check;
pub mod transcript;
pub mod wb_bc_utility;
