//! The difference code, the two codecs built on it, and the planner of the
//! per-index change bounds.

pub mod bits_difference_converter;
pub mod legacy_single_bit;
pub mod max_change_map_creator;
pub mod multi_bit;
