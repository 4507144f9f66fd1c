//! Pointcheval–Sanders credentials over BLS12-381: keys, signatures, blind
//! issuance, proofs of knowledge with selective disclosure, and presentations
//! that bind several proofs to one Fiat–Shamir challenge.
//!
//! The three pairing groups have prime order. Every point is modelled by its
//! discrete logarithm with respect to the group's fixed generator, so the
//! contracts of this crate are statements of arithmetic modulo the group order.

pub mod error;
pub mod field;
pub mod bytes;
pub mod codec;
pub mod algebra;
pub mod g1;
pub mod g2;
pub mod pairing;
pub mod ps;
pub mod group;
pub mod transcript;
pub mod schnorr;
pub mod relation;
pub mod presentation;
