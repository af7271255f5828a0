//! Terminal byte-stream processing for a pseudo-terminal wrapper.
//!
//! The library splits the raw output of a wrapped program into plain-text
//! runs and classified escape sequences, undoes line wraps that the
//! terminal forced onto long URLs, and rewrites configured byte sequences
//! on the input side.

pub mod byteseq;
pub mod input_rewrite;
pub mod say;
pub mod tty_text;
pub mod width;
