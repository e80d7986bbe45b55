//! A combinatorial search engine for twisty puzzles: puzzles whose state is a
//! set of pieces permuted by a fixed library of reversible turns.

pub mod permutation;

pub mod puzzle;

pub mod metamove;

pub mod traverse;

pub mod pipeline;

pub mod solver;

pub mod metamove_solver;
