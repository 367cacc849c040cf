//! Turns Doxygen-style documentation comments into Markdown for rustdoc.
pub mod generator;
pub mod lexer;
pub mod parser;
pub mod prose;
pub mod text;

pub use generator::{emoji_text, generate_notation, render, rustdoc, GenState};
pub use lexer::{consume_url_chars, lex, url_char, LexItem};
pub use parser::{parse, GrammarItem, ParseError};
