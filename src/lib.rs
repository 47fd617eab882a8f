//! Decision engine for relinking ELF binaries against a set of library
//! directories: ELF introspection, a library index, dependency resolution,
//! search-path construction and incremental per-root state.

pub mod abi;
pub mod cache;
pub mod elf;
pub mod misc;
pub mod report;
pub mod resolve;
pub mod state;
pub mod text;
