//! Consensus primitives of a proof-of-work chain: a complete binary Merkle
//! tree with compact inclusion proofs, and the compact encoding of 256-bit
//! targets with its conversion to and from difficulty.

pub mod byte32;
pub mod difficulty;
pub mod merkle;
pub mod inclusion;
pub mod inclusion_laws;
pub mod reserve;
pub mod response;
pub mod uint256;
