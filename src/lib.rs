//! Hierarchical attribution of line coverage to source elements and tests.
pub mod elements;
pub mod engine;
pub mod report;
pub mod text;
