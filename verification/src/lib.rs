//! Off-chain prover logic for a whitelist committed as a multilinear
//! polynomial over the boolean hypercube.
pub mod kzg;
pub mod chain;
pub mod listener;
pub mod server;
