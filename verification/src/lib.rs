//! Validation of byte strings as ASCII and as UTF-8.
//!
//! The validators work block by block over lane registers, the way a
//! vector unit would, and each one is proved to agree with a plain
//! mathematical definition of what it checks.
pub mod ascii;
pub mod utf8;
pub mod ext;
