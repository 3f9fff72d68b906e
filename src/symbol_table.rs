//! Symbol tables.
pub mod ordered_vec;
