pub mod chart;
pub mod count;
pub mod disjoint;
pub mod grid;
pub mod number;
pub mod outside;
pub mod pattern;
pub mod solution;
pub mod sort;
pub mod text;
