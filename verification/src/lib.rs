//! Incremental build engine for C and C++ projects.
//!
//! The library decides what a build has to do and leaves the doing to its
//! caller: it reads manifests and hash files from text, tells which source
//! files have to be compiled again, and gives the commands that compile and
//! link them. Files are read, and commands are run, by the program that uses
//! the library.

pub mod bin_flags;
pub mod builder;
pub mod global_config;
pub mod graph;
pub mod hasher;
pub mod text;
pub mod utils;
