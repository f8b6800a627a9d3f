//! Generator core for diagonal-metric geometric (Clifford) algebras.
//!
//! Given the squares of an algebra's generators, this crate computes the
//! algebra's structure — basis blades, the geometric product, involutions,
//! dualities, and the standard bilinear products — and synthesizes, through a
//! dependency-driven derivation pass over user-declared multivector classes,
//! a catalogue of numeric operations expressed as a backend-neutral
//! intermediate representation.

pub mod algebra;
pub mod ast;
pub mod bitops;
pub mod compile;
pub mod emit;
pub mod involution;
pub mod product;
pub mod registry;
