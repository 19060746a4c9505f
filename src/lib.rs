//! Exact full-text indexing of a reference panel and seed-based
//! classification of sequencing reads against it.
pub mod classify;
pub mod cli;
pub mod counts;
pub mod fm_index;
pub mod output;
pub mod seeds;
pub mod store;
pub mod suffix_array;
pub mod text;
