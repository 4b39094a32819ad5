//! Render a byte sequence as a C-style `static const char[]` array literal,
//! line-wrapped to a configurable width.
//!
//! The library is split in three parts: [`config`] parses a process argument
//! list into a [`Config`], [`convert`] turns bytes into the rendered text,
//! and [`lines`] and [`decode`] state and prove what that text looks like
//! (line lengths, framing, and a decode that recovers the bytes).

use vstd::prelude::*;

pub mod config;
pub mod convert;
pub mod decode;
pub mod lines;

pub use config::Config;
pub use config::ConfigError;
pub use convert::process_bin_file;

verus! {

/// Smallest line width the converter accepts.
pub const MIN_LINE_WIDTH: usize = 50;

/// Line width used when the caller does not ask for one.
pub const DEFAULT_LINE_WIDTH: usize = 80;

} // verus!
