//! Codec for the placeholder text of a game's code table: a stream of 16-bit
//! code units on one side, annotated text with `[name]`, `[name:value]` and
//! backslash escapes on the other.

pub mod code_to_text;
pub mod decimal;
pub mod entry;
pub mod laws;
pub mod round_trip;
pub mod text_to_code;
pub mod utf16;

pub use code_to_text::{CodeToText, CodeToTextError};
pub use entry::{CodeTable, CodeTableDecodeError, CodeTableEntryFile};
pub use text_to_code::{TextToCode, TextToCodeError};
