//! Seven-card poker hand classification and Monte Carlo equity between two hole-card pairs.

pub mod card;
pub mod util;
pub mod hand_type;
pub mod equity;
