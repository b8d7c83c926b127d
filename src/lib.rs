//! A minimal command-line argument tokenizer.
//!
//! Raw arguments are byte strings (the platform's native form, which need not be
//! valid UTF-8). The [`Parser`] classifies them one at a time into short options,
//! long options, positional values, the `--` escape marker, and input it cannot
//! classify. Every token borrows from the caller's arguments; nothing is copied.
pub mod laws;
pub mod model;
pub mod parser;
pub mod raw;
pub mod text;

pub use parser::{Arg, Parser};
pub use raw::{RawArgs, Sealed};
pub use text::{ceil_char_boundary, split_nonutf8_once, valid_up_to};
