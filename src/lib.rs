//! Prime factorizations of frame durations, merged into their least common multiple.
pub mod factorization;
pub mod merge;
pub mod composite;
