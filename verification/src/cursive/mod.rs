//! The diary's cursive handwriting.
pub mod text;
