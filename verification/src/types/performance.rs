//! How well a card is known.

use vstd::prelude::*;
use crate::types::timestamp::{Date, Timestamp};

verus! {

/// A floating-point number, as the bits of its IEEE 754 double. The library
/// carries such numbers and computes nothing with them.
#[derive(Clone, Copy, Debug, PartialEq, Eq, Structural)]
pub struct Real {
    pub bits: u64,
}

/// How well an answer was recalled.
#[derive(Clone, Copy, Debug, PartialEq, Eq, Structural)]
pub enum Grade {
    Forgot,
    Hard,
    Good,
    Easy,
}

/// The schedule of a card that has been reviewed.
#[derive(Clone, Copy, Debug, PartialEq, Eq, Structural)]
pub struct ReviewedPerformance {
    pub last_reviewed_at: Timestamp,
    pub stability: Real,
    pub difficulty: Real,
    pub interval_raw: Real,
    pub interval_days: i64,
    pub due_date: Date,
    pub review_count: usize,
}

/// How well a card is known.
#[derive(Clone, Copy, Debug, PartialEq, Eq, Structural)]
pub enum Performance {
    /// The card has never been reviewed.
    New,
    Reviewed(ReviewedPerformance),
}

impl Performance {
    /// Whether the card has never been reviewed.
    pub fn is_new(&self) -> (result: bool)
        ensures
            result == (*self is New),
    {
        match self {
            Performance::New => true,
            Performance::Reviewed(_) => false,
        }
    }
}

} // verus!
