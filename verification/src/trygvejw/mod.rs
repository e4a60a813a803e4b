//! General helpers.
pub mod utils;
