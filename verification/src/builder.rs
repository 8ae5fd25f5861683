//! Targets: what a target depends on, the names of its files, and the
//! commands that compile and link it.

pub mod headers;
pub mod incremental;
pub mod src;
pub mod target;

pub use src::Src;

