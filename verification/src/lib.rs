//! Bit masks over sample rows and conjunctive rules over binary features,
//! with the deterministic generator and sampling helpers the rule miner uses.

pub mod bitset;
pub mod conjunction;
pub mod prng;
pub mod rules;
pub mod sirus;

pub use bitset::BitMask;
pub use prng::SplitMix64;
pub use rules::{render_conjunction, sort_literals, Literal};
