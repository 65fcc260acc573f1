//! Hides the bytes of a payload in the low bits of 16-bit audio samples,
//! and reads them back.
//!
//! A payload byte is cut into chunks of 1, 2, 4 or 8 bits (`splitter`), and
//! each chunk replaces the low bits of one sample (`codec`). Reading the low
//! bits of the samples and packing them gives the payload back. Every
//! function works on plain sequences of bytes and samples held in memory.

pub mod codec;
pub mod error;
pub mod splitter;
pub mod width;
