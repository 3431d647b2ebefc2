//! Minimal text utilities: an echo, a cat and a head clone.
//!
//! The library holds the verified core of each tool: argument parsing and
//! validation, line numbering, and line/byte truncation. Reading files and
//! writing to the terminal stay outside, in the thin binary around it; the
//! binary hands the library plain values (argument tokens, file contents)
//! and prints what comes back.

pub mod catr;
pub mod echor;
pub mod headr;
pub mod numfmt;
pub mod source;
