//! The Pointcheval–Sanders signature scheme.

pub mod blind;
pub mod blind_laws;
pub mod keys;
pub mod pok;
pub mod pok_laws;
pub mod positions;
pub mod proof_message;
pub mod scheme;
pub mod signature;
pub mod verification;
