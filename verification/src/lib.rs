//! Difference coding: hiding a byte payload in a carrier by small, bounded
//! changes of the carrier's values, and reading it back from the differences.

pub mod difference_encoder;
pub mod image_ui_util;
pub mod util;
