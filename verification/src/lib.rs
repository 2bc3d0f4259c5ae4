//! Firmware image splitter and assembler.
//!
//! A firmware image is described by a line-oriented layout: each line names a
//! part and gives its offset, optionally its size and a padding byte. The
//! library parses such a description, resolves missing sizes, and packs or
//! unpacks the image as a sequence of bytes. Digests over the streamed bytes
//! use SHA-256.

pub mod cli;
pub mod config;
pub mod engine;
pub mod hash;
pub mod parse;
pub mod parts;
pub mod resolve;
