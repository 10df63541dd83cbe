//! A small computer-algebra core: text is parsed into an expression tree,
//! which a term-rewriting engine reduces toward a canonical form.
pub mod arith;
pub mod decimal;
pub mod expr;
pub mod substitute;
pub mod normalize;
pub mod token;
pub mod group;
pub mod separate;
pub mod construct;
pub mod parse;
pub mod document;
pub mod render;

