//! Parsing and multi-base formatting of signed 64-bit integers.
//!
//! The crate recognizes prefix-tagged integer literals (`0x`, `0b`, `0o`,
//! or plain signed decimal), decodes them into an `i64`, and renders such a
//! value as grouped decimal, hexadecimal, binary and octal strings, with a
//! collapsed sign-extension marker for negative values.

pub mod digits;
pub mod grouping;
pub mod laws;
pub mod numformat;
pub mod numparse;
pub mod textops;

pub use grouping::group_into;
pub use numformat::{format_binary, format_decimal, format_hex, format_octal, render_output_block};
pub use numparse::{parse_user_input, ParseError};
pub use textops::{is_clear_command, strip_spaces};
