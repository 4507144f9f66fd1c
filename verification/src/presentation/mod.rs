//! Presentations: several proofs about credentials under one challenge.

pub mod binding;
pub mod bits;
pub mod claim;
pub mod commitment;
pub mod completeness;
pub mod create;
pub mod credential;
pub mod encoding;
pub mod encryption;
pub mod linear;
pub mod lookup;
pub mod membership;
pub mod order;
pub mod parts;
pub mod range;
pub mod rules;
pub mod signature;
pub mod statement;
pub mod tables;
pub mod verify;
