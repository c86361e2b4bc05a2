//! The values that the rules are about.

pub mod card;
pub mod card_hash;
pub mod performance;
pub mod timestamp;
