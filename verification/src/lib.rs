//! An interactive symbolic calculator for the Majorana algebra: expressions
//! built from complex integer literals and anticommuting generators
//! `c0, c1, ...` satisfying `c_i c_j == -c_j c_i` for `i != j` and
//! `c_i c_i == 1`, reduced to a canonical normal form.

pub mod majorana;
pub mod mathtree;
pub mod tokenize;
