//! Helpers over vectors.
pub mod vector_utils;
