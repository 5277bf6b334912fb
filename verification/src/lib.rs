//! A small toolkit for hand-written parsers: a cursor over UTF-8 text with
//! lookahead, consumption, trivia skipping and a few token-level parsers, and
//! failures that carry a byte span and a message showing the input around it.

pub mod chars;
pub mod cursor;
pub mod error;
pub mod grammar;
pub mod number;
pub mod parser;
pub mod state;
pub mod text;

pub use cursor::Cursor;
pub use error::ParseError;
pub use parser::Parser;
