//! Decoder for a legacy word-processor byte format, re-emitted as Rich Text
//! Format paragraph groups.
//!
//! Decoding runs in two stages: [`lexer::lex`] turns raw bytes into tokens, and
//! [`render::render`] turns tokens into RTF paragraph groups.
pub mod decode;
pub mod lexer;
pub mod render;
pub mod token;

pub use decode::{decode, header_char};
pub use lexer::{eat_identical, lex, lex_0400_tag, lex_zero_tag, match_expected};
pub use render::{render, Align, Renderer};
pub use token::Token;
