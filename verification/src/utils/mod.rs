//! Helpers on sequences that are not bound to this language.

pub mod iter_utils;
pub mod vec_utils;
