//! Optimistic equality saturation over SSA e-graphs: an interval domain, a
//! union-find, SSA construction, e-class analyses and rewriting.
pub mod analyses;
pub mod ast;
pub mod domains;
pub mod generate;
pub mod grammar;
pub mod hashcons;
pub mod rewrites;
pub mod ssa;
