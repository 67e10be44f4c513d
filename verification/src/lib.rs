//! A recursive, filtered, pattern-matching text search library.
//!
//! The crate is organised as four subsystems:
//! - `matcher`: pattern compilation with literal and rare-byte acceleration
//!   hints, and per-line match finding.
//! - `searcher`: per-file scanning over whole buffers or incremental chunks,
//!   with line reconstruction across chunk boundaries.
//! - `ignore`: nested, directory-scoped exclusion rules with negation.
//! - `walk`: the small decision functions of the traversal orchestrator.
//!
//! All I/O (reading files, walking directories, printing) is left to the
//! caller; the library works on plain values and states what it computes.

pub mod errors;
pub mod ignore;
pub mod matcher;
pub mod printer;
pub mod searcher;
pub mod walk;
