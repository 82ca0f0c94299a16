//! A placement engine for polyomino-shaped parts on a rectangular grid.
//!
//! Parts are stamped onto a grid under clipping and collision rules,
//! admissibility predicates prune partial and complete arrangements, and a
//! backtracking search enumerates every distinct arrangement of a list of
//! requirements.

pub mod admissible;
pub mod arith;
pub mod candidates;
pub mod grid;
pub mod mask;
pub mod parts;
pub mod solver;
