//! Order-based building blocks of the While-Bradstreet-Barone (WFG) hypervolume algorithm.
//!
//! Objective values are IEEE 754 binary64 numbers held by their bit patterns, so that the
//! comparisons, maxima, sorting and Pareto-front extraction below are exact integer logic.

pub mod objective;
pub mod matrix;
pub mod sort;
pub mod pareto;
pub mod wfg;
