//! Merkle–Damgård hashing (MD4 and SHA-1) written from the published
//! compression functions, their shared padding, and a length-extension
//! forgery against secret-prefix MACs built from them.

pub mod common;
pub mod hasher;
pub mod extension;
pub mod math;
