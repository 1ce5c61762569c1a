//! A small language of arithmetic over numbers, vectors and bound names.

pub mod evaluation;
pub mod expressions;
pub mod vec_types;
