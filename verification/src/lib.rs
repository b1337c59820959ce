//! Verified core of a PLOT3D viewer: binary and ASCII PLOT3D file parsing,
//! mesh topology generation, field-name parsing, a bounded log store and
//! cache identifier generation.
//!
//! Floating-point values are carried as their raw IEEE-754 bit patterns
//! (`u32` for single precision, `u64` for double precision), exactly as they
//! are stored in the files; converting them to `f32` is left to callers.

pub mod types;
pub mod binary;
pub mod grid;
pub mod solution_file;
pub mod function_file;
pub mod ascii;
pub mod solution;
pub mod logger;
pub mod ids;
pub mod formats;
pub mod catalog;
