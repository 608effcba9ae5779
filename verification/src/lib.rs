//! A verified packed-bitfield layout engine.
//!
//! The crate computes byte-accurate layouts for sequences of bit-sized
//! fields, validates that the total width is byte aligned, and provides
//! verified accessors that read and write an arbitrary bit range spanning
//! byte boundaries inside a fixed-size packed byte array (big-endian,
//! MSB-first bit numbering).

pub mod access;
pub mod checks;
pub mod layout;
pub mod model;
pub mod specifier;
